use vstd::prelude::*;

use crate::model::{DefView, Definition, NodeInfo, RefView, Reference};
use crate::range::ByteRange;

verus! {

/// A node in the scope tree: a lexical extent, the definitions bound in it,
/// the references placed in it, and the nested scopes it contains.
///
/// The tree is built functionally: every insertion consumes the tree and
/// returns the new one, and its contract describes the result as a pure
/// function of the old tree's view.
#[derive(Debug)]
pub struct Scope {
    pub node: NodeInfo,
    pub range: ByteRange,
    pub definitions: Vec<Definition>,
    pub references: Vec<Reference>,
    pub children: Vec<Scope>,
}

/// The mathematical model of a scope tree.
#[verifier::ext_equal]
pub ghost struct ScopeView {
    pub node: NodeInfo,
    pub range: ByteRange,
    pub definitions: Seq<DefView>,
    pub references: Seq<RefView>,
    pub children: Seq<ScopeView>,
}

pub open spec fn def_views(ds: Seq<Definition>) -> Seq<DefView> {
    ds.map_values(|d: Definition| d@)
}

pub open spec fn ref_views(rs: Seq<Reference>) -> Seq<RefView> {
    rs.map_values(|r: Reference| r@)
}

impl Scope {
    pub open spec fn sview(self) -> ScopeView
        decreases self,
    {
        ScopeView {
            node: self.node,
            range: self.range,
            definitions: def_views(self.definitions@),
            references: ref_views(self.references@),
            children: scope_views(self.children@),
        }
    }
}

pub open spec fn scope_views(ss: Seq<Scope>) -> Seq<ScopeView>
    decreases ss,
{
    if ss.len() == 0 {
        Seq::empty()
    } else {
        scope_views(ss.drop_last()).push(ss.last().sview())
    }
}

impl View for Scope {
    type V = ScopeView;

    open spec fn view(&self) -> ScopeView {
        self.sview()
    }
}

pub broadcast proof fn lemma_scope_views(ss: Seq<Scope>)
    ensures
        (#[trigger] scope_views(ss)).len() == ss.len(),
        forall|i: int| 0 <= i < ss.len() ==> scope_views(ss)[i] == #[trigger] ss[i].sview(),
    decreases ss,
{
    if ss.len() > 0 {
        lemma_scope_views(ss.drop_last());
        assert(forall|i: int| 0 <= i < ss.len() - 1 ==> ss.drop_last()[i] == #[trigger] ss[i]);
    }
}

/// The model of a freshly made scope: it covers the node's byte range and
/// holds nothing.
pub open spec fn fresh_scope_view(n: NodeInfo) -> ScopeView {
    ScopeView {
        node: n,
        range: n.spec_range(),
        definitions: Seq::empty(),
        references: Seq::empty(),
        children: Seq::empty(),
    }
}

/// The position of the first scope in `cs` whose range contains `r`,
/// or `cs.len()` when no scope contains it.
pub open spec fn first_child_containing(cs: Seq<ScopeView>, r: ByteRange) -> int
    decreases cs,
{
    if cs.len() == 0 {
        0
    } else if cs[0].range.spec_contains(r) {
        0
    } else {
        1 + first_child_containing(cs.drop_first(), r)
    }
}

pub proof fn lemma_first_child_containing(cs: Seq<ScopeView>, r: ByteRange)
    ensures
        0 <= first_child_containing(cs, r) <= cs.len(),
        first_child_containing(cs, r) < cs.len() ==> cs[first_child_containing(
            cs,
            r,
        )].range.spec_contains(r),
        forall|j: int|
            0 <= j < first_child_containing(cs, r) ==> !(#[trigger] cs[j].range.spec_contains(r)),
    decreases cs,
{
    if cs.len() > 0 && !cs[0].range.spec_contains(r) {
        lemma_first_child_containing(cs.drop_first(), r);
        assert forall|j: int| 0 <= j < first_child_containing(cs, r) implies !(
        #[trigger] cs[j].range.spec_contains(r)) by {
            if j > 0 {
                assert(cs[j] == cs.drop_first()[j - 1]);
            }
        }
    }
}

/// The position of the first definition in `ds` binding `ident`, or
/// `ds.len()` when the identifier is not bound there.
pub open spec fn first_def_named(ds: Seq<DefView>, ident: Seq<char>) -> int
    decreases ds,
{
    if ds.len() == 0 {
        0
    } else if ds[0].identifier == ident {
        0
    } else {
        1 + first_def_named(ds.drop_first(), ident)
    }
}

pub proof fn lemma_first_def_named(ds: Seq<DefView>, ident: Seq<char>)
    ensures
        0 <= first_def_named(ds, ident) <= ds.len(),
        first_def_named(ds, ident) < ds.len() ==> ds[first_def_named(ds, ident)].identifier
            == ident,
        forall|j: int|
            0 <= j < first_def_named(ds, ident) ==> (#[trigger] ds[j].identifier) != ident,
    decreases ds,
{
    if ds.len() > 0 && ds[0].identifier != ident {
        lemma_first_def_named(ds.drop_first(), ident);
        assert forall|j: int| 0 <= j < first_def_named(ds, ident) implies (
        #[trigger] ds[j].identifier) != ident by {
            if j > 0 {
                assert(ds[j] == ds.drop_first()[j - 1]);
            }
        }
    }
}

/// Whether some definition of the scope binds `ident`.
pub open spec fn scope_defines(s: ScopeView, ident: Seq<char>) -> bool {
    exists|j: int| 0 <= j < s.definitions.len() && s.definitions[j].identifier == ident
}

/// Whether some definition in `ds` was captured at the node with this
/// identity.
pub open spec fn has_def_with_node(ds: Seq<DefView>, id: usize) -> bool {
    exists|j: int| 0 <= j < ds.len() && ds[j].node.id == id
}

/// One definition map entry is written: the last write under an identifier
/// replaces any earlier one in the same scope, so identifiers stay unique
/// per scope.
pub open spec fn upsert_def(ds: Seq<DefView>, d: DefView) -> Seq<DefView> {
    let j = first_def_named(ds, d.identifier);
    if j < ds.len() {
        ds.update(j, d)
    } else {
        ds.push(d)
    }
}

/// Scope insertion: descend into the first child whose range contains the
/// new scope's range; where none does, the new scope becomes a child here.
pub open spec fn insert_scope_v(t: ScopeView, s: ScopeView) -> ScopeView
    decreases t via insert_scope_v_decreases
{
    let i = first_child_containing(t.children, s.range);
    if i < t.children.len() {
        ScopeView { children: t.children.update(i, insert_scope_v(t.children[i], s)), ..t }
    } else {
        ScopeView { children: t.children.push(s), ..t }
    }
}

/// Definition placement for the default (innermost) modifier: descend into
/// the first child containing the definition's range; bind it where the
/// descent stops.
pub open spec fn insert_def_local_v(t: ScopeView, d: DefView) -> ScopeView
    decreases t via insert_def_local_v_decreases
{
    let i = first_child_containing(t.children, d.range);
    if i < t.children.len() {
        ScopeView { children: t.children.update(i, insert_def_local_v(t.children[i], d)), ..t }
    } else {
        ScopeView { definitions: upsert_def(t.definitions, d), ..t }
    }
}

/// Definition placement one scope out: descend as for the default modifier,
/// but bind the definition in the parent of the scope where the descent
/// would stop. When that scope is the tree this was called on, the
/// modifier degrades to a binding at its top.
pub open spec fn insert_def_parent_v(t: ScopeView, d: DefView) -> ScopeView
    decreases t via insert_def_parent_v_decreases
{
    let i = first_child_containing(t.children, d.range);
    if i < t.children.len() {
        let c = t.children[i];
        if first_child_containing(c.children, d.range) < c.children.len() {
            ScopeView { children: t.children.update(i, insert_def_parent_v(c, d)), ..t }
        } else {
            ScopeView { definitions: upsert_def(t.definitions, d), ..t }
        }
    } else {
        ScopeView { definitions: upsert_def(t.definitions, d), ..t }
    }
}

/// Definition placement, honouring the scope modifier. `Global` binds at
/// the top of the tree this is applied to.
pub open spec fn insert_def_v(t: ScopeView, d: DefView) -> ScopeView {
    match d.scope_modifier {
        crate::model::ScopeModifier::Global => ScopeView {
            definitions: upsert_def(t.definitions, d),
            ..t
        },
        crate::model::ScopeModifier::Parent => insert_def_parent_v(t, d),
        crate::model::ScopeModifier::Local => insert_def_local_v(t, d),
    }
}

/// Reference placement: descend into the first child containing the
/// reference's range, and append it to the innermost scope reached. A
/// reference whose node is the defining node of a definition in any scope
/// visited on the way down is dropped: a definition's identifier node is
/// not itself a reference.
pub open spec fn insert_ref_v(t: ScopeView, f: RefView) -> ScopeView
    decreases t via insert_ref_v_decreases
{
    if has_def_with_node(t.definitions, f.node.id) {
        t
    } else {
        let i = first_child_containing(t.children, f.range);
        if i < t.children.len() {
            ScopeView { children: t.children.update(i, insert_ref_v(t.children[i], f)), ..t }
        } else {
            ScopeView { references: t.references.push(f), ..t }
        }
    }
}

#[via_fn]
proof fn insert_scope_v_decreases(t: ScopeView, s: ScopeView) {
    lemma_first_child_containing(t.children, s.range);
}

#[via_fn]
proof fn insert_def_local_v_decreases(t: ScopeView, d: DefView) {
    lemma_first_child_containing(t.children, d.range);
}

#[via_fn]
proof fn insert_def_parent_v_decreases(t: ScopeView, d: DefView) {
    lemma_first_child_containing(t.children, d.range);
}

#[via_fn]
proof fn insert_ref_v_decreases(t: ScopeView, f: RefView) {
    lemma_first_child_containing(t.children, f.range);
}

impl Scope {
    /// A fresh scope covering the node's byte range, with nothing in it.
    pub fn new(node: NodeInfo) -> (s: Scope)
        ensures
            s@ == fresh_scope_view(node),
    {
        let s = Scope {
            node,
            range: node.byte_range(),
            definitions: Vec::new(),
            references: Vec::new(),
            children: Vec::new(),
        };
        proof {
            assert(s@.definitions =~= Seq::<DefView>::empty());
            assert(s@.references =~= Seq::<RefView>::empty());
            assert(s@.children =~= Seq::<ScopeView>::empty());
        }
        s
    }

    /// The index of the first child whose range contains `r`, or the number
    /// of children when none does.
    fn find_child_containing(&self, r: &ByteRange) -> (idx: usize)
        ensures
            idx == first_child_containing(self@.children, *r),
    {
        let ghost cs = self@.children;
        proof {
            lemma_scope_views(self.children@);
        }
        let mut i: usize = 0;
        while i < self.children.len()
            invariant
                0 <= i <= self.children.len(),
                cs == scope_views(self.children@),
                cs.len() == self.children.len(),
                forall|j: int| 0 <= j < i ==> !(#[trigger] cs[j].range.spec_contains(*r)),
            decreases self.children.len() - i,
        {
            proof {
                lemma_scope_views(self.children@);
                assert(cs[i as int] == self.children@[i as int].sview());
            }
            let hit = self.children[i].range.contains(r);
            if hit {
                proof {
                    assert(cs[i as int].range.spec_contains(*r));
                    lemma_first_child_containing(cs, *r);
                    let f = first_child_containing(cs, *r);
                    if f < i {
                        assert(!cs[f].range.spec_contains(*r));
                    }
                }
                return i;
            }
            i = i + 1;
        }
        proof {
            lemma_first_child_containing(cs, *r);
        }
        i
    }
}

pub proof fn lemma_scope_views_push(ss: Seq<Scope>, x: Scope)
    ensures
        scope_views(ss.push(x)) =~= scope_views(ss).push(x.sview()),
{
    assert(ss.push(x).drop_last() =~= ss);
    assert(ss.push(x).last() == x);
}

pub proof fn lemma_scope_views_update(ss: Seq<Scope>, i: int, x: Scope)
    requires
        0 <= i < ss.len(),
    ensures
        scope_views(ss.update(i, x)) =~= scope_views(ss).update(i, x.sview()),
{
    lemma_scope_views(ss);
    lemma_scope_views(ss.update(i, x));
    assert forall|j: int| 0 <= j < ss.len() implies scope_views(ss.update(i, x))[j] == scope_views(
        ss,
    ).update(i, x.sview())[j] by {
        assert(scope_views(ss.update(i, x))[j] == ss.update(i, x)[j].sview());
        if j != i {
            assert(ss.update(i, x)[j] == ss[j]);
            assert(scope_views(ss)[j] == ss[j].sview());
        } else {
            assert(ss.update(i, x)[j] == x);
        }
    }
}

impl Scope {
    /// The index of the first definition binding this identifier, or the
    /// number of definitions when none does.
    pub(crate) fn find_def_named(&self, ident: &String) -> (idx: usize)
        ensures
            idx == first_def_named(self@.definitions, ident@),
    {
        let ghost ds = self@.definitions;
        let mut i: usize = 0;
        while i < self.definitions.len()
            invariant
                0 <= i <= self.definitions.len(),
                ds == def_views(self.definitions@),
                ds.len() == self.definitions.len(),
                forall|j: int| 0 <= j < i ==> (#[trigger] ds[j].identifier) != ident@,
            decreases self.definitions.len() - i,
        {
            let hit = self.definitions[i].identifier == *ident;
            if hit {
                proof {
                    assert(ds[i as int].identifier == ident@);
                    lemma_first_def_named(ds, ident@);
                    let f = first_def_named(ds, ident@);
                    if f < i {
                        assert(ds[f].identifier != ident@);
                    }
                }
                return i;
            }
            i = i + 1;
        }
        proof {
            lemma_first_def_named(ds, ident@);
        }
        i
    }

    /// Whether some definition here was captured at the node with identity
    /// `id`.
    fn has_definition_node(&self, id: usize) -> (r: bool)
        ensures
            r == has_def_with_node(self@.definitions, id),
    {
        let ghost ds = self@.definitions;
        let mut i: usize = 0;
        while i < self.definitions.len()
            invariant
                0 <= i <= self.definitions.len(),
                ds == def_views(self.definitions@),
                ds.len() == self.definitions.len(),
                forall|j: int| 0 <= j < i ==> (#[trigger] ds[j].node.id) != id,
            decreases self.definitions.len() - i,
        {
            if self.definitions[i].node.id == id {
                proof {
                    assert(ds[i as int].node.id == id);
                }
                return true;
            }
            i = i + 1;
        }
        false
    }

    /// Write one definition map entry: the last write under an identifier
    /// replaces any earlier one in this scope.
    fn add_definition(self, definition: Definition) -> (r: Scope)
        ensures
            r@ == (ScopeView { definitions: upsert_def(self@.definitions, definition@), ..self@ }),
    {
        let ghost t0 = self;
        let mut this = self;
        let j = this.find_def_named(&definition.identifier);
        proof {
            lemma_first_def_named(t0@.definitions, definition@.identifier);
        }
        if j < this.definitions.len() {
            this.definitions.remove(j);
            this.definitions.insert(j, definition);
            proof {
                assert(this.definitions@ =~= t0.definitions@.update(j as int, definition));
                assert(this@.definitions =~= t0@.definitions.update(j as int, definition@));
                assert(this@ =~= (ScopeView {
                    definitions: upsert_def(t0@.definitions, definition@),
                    ..t0@
                }));
            }
            this
        } else {
            this.definitions.push(definition);
            proof {
                assert(this@.definitions =~= t0@.definitions.push(definition@));
                assert(this@ =~= (ScopeView {
                    definitions: upsert_def(t0@.definitions, definition@),
                    ..t0@
                }));
            }
            this
        }
    }

    /// Insert a nested scope, descending to its place in the tree.
    pub fn insert_scope(self, scope: Scope) -> (r: Scope)
        ensures
            r@ == insert_scope_v(self@, scope@),
        decreases self,
    {
        let ghost t0 = self;
        let mut this = self;
        let i = this.find_child_containing(&scope.range);
        proof {
            lemma_first_child_containing(t0@.children, scope@.range);
        }
        if i < this.children.len() {
            let child = this.children.remove(i);
            proof {
                lemma_scope_views(t0.children@);
                assert(decreases_to!(t0 => t0.children@[i as int]));
            }
            let child = child.insert_scope(scope);
            this.children.insert(i, child);
            proof {
                assert(this.children@ =~= t0.children@.update(i as int, child));
                lemma_scope_views_update(t0.children@, i as int, child);
                assert(this@.children =~= t0@.children.update(i as int, child@));
                assert(this@ =~= insert_scope_v(t0@, scope@));
            }
            this
        } else {
            this.children.push(scope);
            proof {
                lemma_scope_views(t0.children@);
                lemma_scope_views_push(t0.children@, scope);
                assert(this@ =~= insert_scope_v(t0@, scope@));
            }
            this
        }
    }

    /// Place a definition, honouring its scope modifier.
    pub fn insert_definition(self, definition: Definition) -> (r: Scope)
        ensures
            r@ == insert_def_v(self@, definition@),
    {
        match definition.scope_modifier {
            crate::model::ScopeModifier::Global => self.add_definition(definition),
            crate::model::ScopeModifier::Parent => self.insert_definition_parent(definition),
            crate::model::ScopeModifier::Local => self.insert_definition_local(definition),
        }
    }

    fn insert_definition_local(self, definition: Definition) -> (r: Scope)
        ensures
            r@ == insert_def_local_v(self@, definition@),
        decreases self,
    {
        let ghost t0 = self;
        let mut this = self;
        let i = this.find_child_containing(&definition.range);
        proof {
            lemma_first_child_containing(t0@.children, definition@.range);
        }
        if i < this.children.len() {
            let child = this.children.remove(i);
            proof {
                lemma_scope_views(t0.children@);
                assert(decreases_to!(t0 => t0.children@[i as int]));
            }
            let child = child.insert_definition_local(definition);
            this.children.insert(i, child);
            proof {
                assert(this.children@ =~= t0.children@.update(i as int, child));
                lemma_scope_views_update(t0.children@, i as int, child);
                assert(this@.children =~= t0@.children.update(i as int, child@));
                assert(this@ =~= insert_def_local_v(t0@, definition@));
            }
            this
        } else {
            let r = this.add_definition(definition);
            proof {
                lemma_scope_views(t0.children@);
                assert(r@ =~= insert_def_local_v(t0@, definition@));
            }
            r
        }
    }

    fn insert_definition_parent(self, definition: Definition) -> (r: Scope)
        ensures
            r@ == insert_def_parent_v(self@, definition@),
        decreases self,
    {
        let ghost t0 = self;
        let mut this = self;
        let i = this.find_child_containing(&definition.range);
        proof {
            lemma_first_child_containing(t0@.children, definition@.range);
        }
        if i < this.children.len() {
            proof {
                lemma_scope_views(t0.children@);
            }
            let j = this.children[i].find_child_containing(&definition.range);
            proof {
                lemma_first_child_containing(t0@.children[i as int].children, definition@.range);
                lemma_scope_views(t0.children@[i as int].children@);
                assert(this.children@[i as int]@ == t0@.children[i as int]);
            }
            if j < this.children[i].children.len() {
                let child = this.children.remove(i);
                proof {
                    assert(decreases_to!(t0 => t0.children@[i as int]));
                }
                let child = child.insert_definition_parent(definition);
                this.children.insert(i, child);
                proof {
                    assert(this.children@ =~= t0.children@.update(i as int, child));
                    lemma_scope_views_update(t0.children@, i as int, child);
                    assert(this@.children =~= t0@.children.update(i as int, child@));
                    assert(this@ =~= insert_def_parent_v(t0@, definition@));
                }
                this
            } else {
                let r = this.add_definition(definition);
                proof {
                    lemma_scope_views(t0.children@);
                    assert(r@ =~= insert_def_parent_v(t0@, definition@));
                }
                r
            }
        } else {
            let r = this.add_definition(definition);
            proof {
                lemma_scope_views(t0.children@);
                assert(r@ =~= insert_def_parent_v(t0@, definition@));
            }
            r
        }
    }

    /// Place a reference in the innermost scope containing it, unless its
    /// node is the defining node of a definition met on the way down.
    pub fn insert_reference(self, reference: Reference) -> (r: Scope)
        ensures
            r@ == insert_ref_v(self@, reference@),
        decreases self,
    {
        let ghost t0 = self;
        let mut this = self;
        if this.has_definition_node(reference.node.id) {
            return this;
        }
        let i = this.find_child_containing(&reference.range);
        proof {
            lemma_first_child_containing(t0@.children, reference@.range);
        }
        if i < this.children.len() {
            let child = this.children.remove(i);
            proof {
                lemma_scope_views(t0.children@);
                assert(decreases_to!(t0 => t0.children@[i as int]));
            }
            let child = child.insert_reference(reference);
            this.children.insert(i, child);
            proof {
                assert(this.children@ =~= t0.children@.update(i as int, child));
                lemma_scope_views_update(t0.children@, i as int, child);
                assert(this@.children =~= t0@.children.update(i as int, child@));
                assert(this@ =~= insert_ref_v(t0@, reference@));
            }
            this
        } else {
            this.references.push(reference);
            proof {
                lemma_scope_views(t0.children@);
                assert(this@.references =~= t0@.references.push(reference@));
                assert(this@ =~= insert_ref_v(t0@, reference@));
            }
            this
        }
    }
}

/// Two scope-tree nodes are the same scope when they came from the same
/// syntax node: equality goes by node identity, not by contents.
impl PartialEq for Scope {
    fn eq(&self, other: &Self) -> (r: bool) {
        self.node.id == other.node.id
    }
}

impl vstd::std_specs::cmp::PartialEqSpecImpl for Scope {
    open spec fn obeys_eq_spec() -> bool {
        true
    }

    open spec fn eq_spec(&self, other: &Self) -> bool {
        self.node.id == other.node.id
    }
}

} // verus!

//! Names. Each name is a number standing for an entry of a [`NameTable`]:
//! the text of a raw name, or what a declared name is made of. Asking the
//! table for the same entry twice gives the same number, so two names of a
//! table are the same name exactly when they spell out the same [`NamePath`].

pub mod declare;
pub mod resolve;

use vstd::prelude::*;

use crate::messages::Message;
use crate::source::Span;

verus! {

/// A name as written, by the number of its text.
#[derive(Clone, Copy, Debug, PartialEq, Eq, Hash, Structural)]
pub struct RawName(pub usize);

/// The name of an item, by its number.
#[derive(Clone, Copy, Debug, PartialEq, Eq, Hash, Structural)]
pub struct ItemName(pub usize);

/// The name of a local binding, by its number.
#[derive(Clone, Copy, Debug, PartialEq, Eq, Hash, Structural)]
pub struct LocalName(pub usize);

/// A scope that has no name of its own, by its number.
#[derive(Clone, Copy, Debug, PartialEq, Eq, Hash, Structural)]
pub struct UnnamableName(pub usize);

/// What made a scope without a name.
#[derive(Clone, Copy, Debug, PartialEq, Eq, Hash, Structural)]
pub enum UnnamableNameKind {
    /// A pattern that binds no name.
    Pattern,
    /// An entry that is not bound to a name.
    Entry,
}

/// Either kind of name.
#[derive(Clone, Copy, Debug, PartialEq, Eq, Hash, Structural)]
pub enum Name {
    Item(ItemName),
    Local(LocalName),
}

/// Anything that names can be declared within.
#[derive(Clone, Copy, Debug, PartialEq, Eq, Hash, Structural)]
pub enum DeclarableName {
    Item(ItemName),
    Local(LocalName),
    Unnamable(UnnamableName),
}

impl DeclarableName {
    /// The number of the entry this name stands for.
    pub open spec fn index(self) -> nat {
        match self {
            DeclarableName::Item(n) => n.0 as nat,
            DeclarableName::Local(n) => n.0 as nat,
            DeclarableName::Unnamable(n) => n.0 as nat,
        }
    }
}

impl Name {
    /// The scope that a name opens.
    pub open spec fn spec_declarable(self) -> DeclarableName {
        match self {
            Name::Item(n) => DeclarableName::Item(n),
            Name::Local(n) => DeclarableName::Local(n),
        }
    }

    /// The scope that a name opens.
    pub fn declarable(self) -> (d: DeclarableName)
        ensures
            d == self.spec_declarable(),
    {
        match self {
            Name::Item(n) => DeclarableName::Item(n),
            Name::Local(n) => DeclarableName::Local(n),
        }
    }
}

/// What a declared name is made of.
#[derive(Clone, Copy, Debug, PartialEq, Eq, Hash, Structural)]
pub enum Declaration {
    Item { parent: Option<DeclarableName>, name: RawName },
    Local { parent: Option<DeclarableName>, name: RawName, scope: usize },
    Unnamable { kind: UnnamableNameKind, parent: Option<DeclarableName>, span: Span },
}

impl Declaration {
    /// The name this one is declared within.
    pub open spec fn parent(self) -> Option<DeclarableName> {
        match self {
            Declaration::Item { parent, .. } => parent,
            Declaration::Local { parent, .. } => parent,
            Declaration::Unnamable { parent, .. } => parent,
        }
    }
}

/// A declared name spelled out: its kind, the name it is declared within,
/// and what tells it apart there.
pub enum NamePath {
    Item { parent: Option<Box<NamePath>>, name: Seq<char> },
    Local { parent: Option<Box<NamePath>>, name: Seq<char>, scope: nat },
    Unnamable { kind: UnnamableNameKind, parent: Option<Box<NamePath>>, span: Span },
}

impl NamePath {
    /// The name this one is declared within.
    pub open spec fn parent(self) -> Option<Box<NamePath>> {
        match self {
            NamePath::Item { parent, .. } => parent,
            NamePath::Local { parent, .. } => parent,
            NamePath::Unnamable { parent, .. } => parent,
        }
    }
}

/// Every name handed out so far: the text of each raw name, and what each
/// declared name is made of. Item, local and unnamable names share one
/// numbering.
pub struct NameTable {
    texts: Vec<String>,
    decls: Vec<Declaration>,
}

impl NameTable {
    /// The text of each raw name.
    pub closed spec fn texts(self) -> Seq<Seq<char>> {
        self.texts@.map_values(|s: String| s@)
    }

    /// What each declared name is made of.
    pub closed spec fn decls(self) -> Seq<Declaration> {
        self.decls@
    }

    /// Whether `r` is a raw name of this table.
    pub open spec fn has_raw(self, r: RawName) -> bool {
        r.0 < self.texts().len()
    }

    /// Whether `d` is a name of this table, of the kind its entry has.
    pub open spec fn has(self, d: DeclarableName) -> bool {
        &&& d.index() < self.decls().len()
        &&& match d {
            DeclarableName::Item(n) => self.decls()[n.0 as int] is Item,
            DeclarableName::Local(n) => self.decls()[n.0 as int] is Local,
            DeclarableName::Unnamable(n) => self.decls()[n.0 as int] is Unnamable,
        }
    }

    /// Whether `p` is absent, or a name of this table numbered below `below`.
    pub open spec fn has_parent(self, p: Option<DeclarableName>, below: nat) -> bool {
        match p {
            Some(d) => self.has(d) && d.index() < below,
            None => true,
        }
    }

    /// Whether an entry may stand in this table at number `at`.
    pub open spec fn allows(self, decl: Declaration, at: nat) -> bool {
        &&& self.has_parent(decl.parent(), at)
        &&& match decl {
            Declaration::Item { name, .. } => self.has_raw(name),
            Declaration::Local { name, .. } => self.has_raw(name),
            Declaration::Unnamable { .. } => true,
        }
    }

    /// No text and no entry is held twice, and every entry refers only to
    /// raw names of the table and to names made before it.
    pub open spec fn wf(self) -> bool {
        &&& forall|i: int, j: int|
            0 <= i < j < self.texts().len() ==> self.texts()[i] != self.texts()[j]
        &&& forall|i: int, j: int|
            0 <= i < j < self.decls().len() ==> self.decls()[i] != self.decls()[j]
        &&& forall|i: int| 0 <= i < self.decls().len() ==> self.allows(#[trigger] self.decls()[i], i as nat)
    }

    /// The spelled out name numbered `i`.
    pub open spec fn path_at(self, i: nat) -> NamePath
        decreases i,
    {
        let decl = self.decls()[i as int];
        let parent = match decl.parent() {
            Some(p) => if p.index() < i {
                Some(Box::new(self.path_at(p.index())))
            } else {
                None
            },
            None => None,
        };
        match decl {
            Declaration::Item { name, .. } => NamePath::Item {
                parent,
                name: self.texts()[name.0 as int],
            },
            Declaration::Local { name, scope, .. } => NamePath::Local {
                parent,
                name: self.texts()[name.0 as int],
                scope: scope as nat,
            },
            Declaration::Unnamable { kind, span, .. } => NamePath::Unnamable { kind, parent, span },
        }
    }

    /// The spelled out name `d`.
    pub open spec fn path(self, d: DeclarableName) -> NamePath {
        self.path_at(d.index())
    }

    /// The spelled out name `n`.
    pub open spec fn name_path(self, n: Name) -> NamePath {
        self.path(n.spec_declarable())
    }

    /// The spelled out parent `p`.
    pub open spec fn parent_path(self, p: Option<DeclarableName>) -> Option<Box<NamePath>> {
        match p {
            Some(d) => Some(Box::new(self.path(d))),
            None => None,
        }
    }

    /// `other` holds every text and entry of `self`, under the same numbers.
    pub open spec fn grows_into(self, other: Self) -> bool {
        &&& self.texts().len() <= other.texts().len()
        &&& self.decls().len() <= other.decls().len()
        &&& forall|i: int| 0 <= i < self.texts().len() ==> other.texts()[i] == self.texts()[i]
        &&& forall|i: int| 0 <= i < self.decls().len() ==> other.decls()[i] == self.decls()[i]
        &&& forall|d: DeclarableName| #[trigger] self.has(d) ==> other.has(d)
        &&& forall|d: DeclarableName| self.has(d) ==> #[trigger] other.path(d) == self.path(d)
    }

    /// A spelled out name unfolds into its entry.
    pub proof fn lemma_path(self, d: DeclarableName)
        requires
            self.wf(),
            self.has(d),
        ensures
            self.path(d) == (match self.decls()[d.index() as int] {
                Declaration::Item { parent, name } => NamePath::Item {
                    parent: self.parent_path(parent),
                    name: self.texts()[name.0 as int],
                },
                Declaration::Local { parent, name, scope } => NamePath::Local {
                    parent: self.parent_path(parent),
                    name: self.texts()[name.0 as int],
                    scope: scope as nat,
                },
                Declaration::Unnamable { kind, parent, span } => NamePath::Unnamable {
                    kind,
                    parent: self.parent_path(parent),
                    span,
                },
            }),
    {
        let decl = self.decls()[d.index() as int];
        assert(self.allows(decl, d.index()));
    }

    /// Two names of a table are equal exactly when they spell out the same.
    pub proof fn lemma_path_injective(self, a: DeclarableName, b: DeclarableName)
        requires
            self.wf(),
            self.has(a),
            self.has(b),
            self.path(a) == self.path(b),
        ensures
            a == b,
        decreases a.index() + b.index(),
    {
        let da = self.decls()[a.index() as int];
        let db = self.decls()[b.index() as int];
        self.lemma_path(a);
        self.lemma_path(b);
        assert(self.allows(da, a.index()));
        assert(self.allows(db, b.index()));
        if da.parent() is Some && db.parent() is Some {
            let pa = da.parent().unwrap();
            let pb = db.parent().unwrap();
            assert(self.path(pa) == self.path(pb));
            self.lemma_path_injective(pa, pb);
        }
        match da {
            Declaration::Item { name: na, .. } => {
                let nb = db->Item_name;
                if na != nb {
                    assert(self.texts()[na.0 as int] != self.texts()[nb.0 as int]);
                }
            },
            Declaration::Local { name: na, .. } => {
                let nb = db->Local_name;
                if na != nb {
                    assert(self.texts()[na.0 as int] != self.texts()[nb.0 as int]);
                }
            },
            Declaration::Unnamable { .. } => {},
        }
        assert(da == db);
        if a.index() != b.index() {
            if a.index() < b.index() {
                assert(self.decls()[a.index() as int] != self.decls()[b.index() as int]);
            } else {
                assert(self.decls()[b.index() as int] != self.decls()[a.index() as int]);
            }
        }
    }

    /// Growing keeps what every name of the smaller table spells out.
    proof fn lemma_grow_path(self, other: Self, i: nat)
        requires
            self.wf(),
            i < self.decls().len(),
            self.texts().len() <= other.texts().len(),
            self.decls().len() <= other.decls().len(),
            forall|j: int| 0 <= j < self.texts().len() ==> other.texts()[j] == self.texts()[j],
            forall|j: int| 0 <= j < self.decls().len() ==> other.decls()[j] == self.decls()[j],
        ensures
            other.path_at(i) == self.path_at(i),
        decreases i,
    {
        let decl = self.decls()[i as int];
        assert(self.allows(decl, i));
        assert(other.decls()[i as int] == decl);
        match decl.parent() {
            Some(p) => {
                self.lemma_grow_path(other, p.index());
            },
            None => {},
        }
    }

    /// A table that holds a prefix of another's texts and entries grows into it.
    proof fn lemma_grows(self, other: Self)
        requires
            self.wf(),
            self.texts().len() <= other.texts().len(),
            self.decls().len() <= other.decls().len(),
            forall|j: int| 0 <= j < self.texts().len() ==> other.texts()[j] == self.texts()[j],
            forall|j: int| 0 <= j < self.decls().len() ==> other.decls()[j] == self.decls()[j],
        ensures
            self.grows_into(other),
    {
        assert forall|d: DeclarableName| self.has(d) implies #[trigger] other.path(d) == self.path(d) by {
            self.lemma_grow_path(other, d.index());
        }
        assert forall|d: DeclarableName| #[trigger] self.has(d) implies other.has(d) by {
            assert(other.decls()[d.index() as int] == self.decls()[d.index() as int]);
        }
    }

    /// An empty table.
    pub fn new() -> (t: Self)
        ensures
            t.wf(),
            t.texts().len() == 0,
            t.decls().len() == 0,
    {
        let t = NameTable { texts: Vec::new(), decls: Vec::new() };
        assert(t.texts() =~= Seq::empty());
        t
    }

    /// The raw name whose text is `text`, made if the table has none yet.
    pub fn raw(&mut self, text: &String) -> (r: RawName)
        requires
            old(self).wf(),
        ensures
            final(self).wf(),
            old(self).grows_into(*final(self)),
            final(self).decls() == old(self).decls(),
            final(self).has_raw(r),
            final(self).texts()[r.0 as int] == text@,
    {
        let mut i: usize = 0;
        while i < self.texts.len()
            invariant
                self.wf(),
                i <= self.texts@.len(),
                forall|j: int| 0 <= j < i ==> self.texts()[j] != text@,
            decreases self.texts@.len() - i,
        {
            if self.texts[i] == *text {
                proof {
                    self.lemma_grows(*self);
                }
                return RawName(i);
            }
            i = i + 1;
        }
        let ghost before = *self;
        self.texts.push(text.clone());
        proof {
            assert(self.texts() =~= before.texts().push(text@));
            before.lemma_grows(*self);
        }
        RawName(i)
    }

    /// The number of the entry `decl`, if the table holds it.
    pub fn find(&self, decl: Declaration) -> (r: Option<usize>)
        ensures
            match r {
                Some(i) => i < self.decls().len() && self.decls()[i as int] == decl,
                None => forall|i: int| 0 <= i < self.decls().len() ==> self.decls()[i] != decl,
            },
    {
        let mut i: usize = 0;
        while i < self.decls.len()
            invariant
                i <= self.decls@.len(),
                forall|j: int| 0 <= j < i ==> self.decls()[j] != decl,
            decreases self.decls@.len() - i,
        {
            if self.decls[i] == decl {
                return Some(i);
            }
            i = i + 1;
        }
        None
    }

    /// The number of the entry `decl`, made if the table has none yet.
    fn intern(&mut self, decl: Declaration) -> (i: usize)
        requires
            old(self).wf(),
            old(self).allows(decl, old(self).decls().len()),
        ensures
            final(self).wf(),
            old(self).grows_into(*final(self)),
            final(self).texts() == old(self).texts(),
            i < final(self).decls().len(),
            final(self).decls()[i as int] == decl,
            i < old(self).decls().len() || i == old(self).decls().len(),
    {
        match self.find(decl) {
            Some(i) => {
                proof {
                    self.lemma_grows(*self);
                }
                i
            },
            None => {
                let ghost before = *self;
                let i = self.decls.len();
                self.decls.push(decl);
                proof {
                    assert(self.decls() == before.decls().push(decl));
                    assert(self.texts() == before.texts());
                    assert forall|j: int| 0 <= j < self.decls().len() implies self.allows(
                        #[trigger] self.decls()[j],
                        j as nat,
                    ) by {
                        if j < i {
                            assert(before.allows(before.decls()[j], j as nat));
                        }
                    }
                    before.lemma_grows(*self);
                }
                i
            },
        }
    }

    /// The item named `name` within `parent`.
    pub fn item(&mut self, parent: Option<DeclarableName>, name: RawName) -> (n: ItemName)
        requires
            old(self).wf(),
            old(self).has_parent(parent, old(self).decls().len()),
            old(self).has_raw(name),
        ensures
            final(self).wf(),
            old(self).grows_into(*final(self)),
            final(self).texts() == old(self).texts(),
            final(self).has(DeclarableName::Item(n)),
            final(self).decls()[n.0 as int] == (Declaration::Item { parent, name }),
            final(self).path(DeclarableName::Item(n)) == (NamePath::Item {
                parent: final(self).parent_path(parent),
                name: final(self).texts()[name.0 as int],
            }),
    {
        let i = self.intern(Declaration::Item { parent, name });
        proof {
            self.lemma_path(DeclarableName::Item(ItemName(i)));
        }
        ItemName(i)
    }

    /// The scope without a name of kind `kind`, within `parent`, at `span`.
    pub fn unnamable(
        &mut self,
        kind: UnnamableNameKind,
        parent: Option<DeclarableName>,
        span: Span,
    ) -> (n: UnnamableName)
        requires
            old(self).wf(),
            old(self).has_parent(parent, old(self).decls().len()),
        ensures
            final(self).wf(),
            old(self).grows_into(*final(self)),
            final(self).texts() == old(self).texts(),
            final(self).has(DeclarableName::Unnamable(n)),
            final(self).decls()[n.0 as int] == (Declaration::Unnamable { kind, parent, span }),
            final(self).path(DeclarableName::Unnamable(n)) == (NamePath::Unnamable {
                kind,
                parent: final(self).parent_path(parent),
                span,
            }),
    {
        let i = self.intern(Declaration::Unnamable { kind, parent, span });
        proof {
            self.lemma_path(DeclarableName::Unnamable(UnnamableName(i)));
        }
        UnnamableName(i)
    }

    /// The item named `name` within `parent`, if the table holds it.
    pub fn find_item(&self, parent: Option<DeclarableName>, name: RawName) -> (r: Option<ItemName>)
        requires
            self.wf(),
            self.has_parent(parent, self.decls().len()),
            self.has_raw(name),
        ensures
            match r {
                Some(n) => self.has(DeclarableName::Item(n)) && self.path(DeclarableName::Item(n))
                    == (NamePath::Item {
                    parent: self.parent_path(parent),
                    name: self.texts()[name.0 as int],
                }),
                None => forall|d: DeclarableName|
                    #![trigger self.path(d)]
                    self.has(d) ==> self.path(d) != (NamePath::Item {
                        parent: self.parent_path(parent),
                        name: self.texts()[name.0 as int],
                    }),
            },
    {
        let r = self.find(Declaration::Item { parent, name });
        match r {
            Some(i) => {
                proof {
                    self.lemma_path(DeclarableName::Item(ItemName(i)));
                }
                Some(ItemName(i))
            },
            None => {
                proof {
                    assert forall|d: DeclarableName| #![trigger self.path(d)] self.has(d) implies self.path(d) != (NamePath::Item {
                        parent: self.parent_path(parent),
                        name: self.texts()[name.0 as int],
                    }) by {
                        self.lemma_no_path(d, Declaration::Item { parent, name });
                    }
                }
                None
            },
        }
    }

    /// The local named `name` within `parent` in its scope number `scope`, if
    /// the table holds it.
    pub fn find_local(&self, parent: Option<DeclarableName>, name: RawName, scope: usize) -> (r: Option<LocalName>)
        requires
            self.wf(),
            self.has_parent(parent, self.decls().len()),
            self.has_raw(name),
        ensures
            match r {
                Some(n) => self.has(DeclarableName::Local(n)) && self.path(DeclarableName::Local(n))
                    == (NamePath::Local {
                    parent: self.parent_path(parent),
                    name: self.texts()[name.0 as int],
                    scope: scope as nat,
                }),
                None => forall|d: DeclarableName|
                    #![trigger self.path(d)]
                    self.has(d) ==> self.path(d) != (NamePath::Local {
                        parent: self.parent_path(parent),
                        name: self.texts()[name.0 as int],
                        scope: scope as nat,
                    }),
            },
    {
        let r = self.find(Declaration::Local { parent, name, scope });
        match r {
            Some(i) => {
                proof {
                    self.lemma_path(DeclarableName::Local(LocalName(i)));
                }
                Some(LocalName(i))
            },
            None => {
                proof {
                    assert forall|d: DeclarableName| #![trigger self.path(d)] self.has(d) implies self.path(d) != (NamePath::Local {
                        parent: self.parent_path(parent),
                        name: self.texts()[name.0 as int],
                        scope: scope as nat,
                    }) by {
                        self.lemma_no_path(d, Declaration::Local { parent, name, scope });
                    }
                }
                None
            },
        }
    }

    /// A name whose entry differs from an entry allowed anywhere in the
    /// table spells out something else.
    proof fn lemma_no_path(self, d: DeclarableName, decl: Declaration)
        requires
            self.wf(),
            self.has(d),
            self.allows(decl, self.decls().len()),
            self.decls()[d.index() as int] != decl,
            !(decl is Unnamable),
        ensures
            self.path(d) != (match decl {
                Declaration::Item { parent, name } => NamePath::Item {
                    parent: self.parent_path(parent),
                    name: self.texts()[name.0 as int],
                },
                Declaration::Local { parent, name, scope } => NamePath::Local {
                    parent: self.parent_path(parent),
                    name: self.texts()[name.0 as int],
                    scope: scope as nat,
                },
                Declaration::Unnamable { kind, parent, span } => NamePath::Unnamable {
                    kind,
                    parent: self.parent_path(parent),
                    span,
                },
            }),
    {
        let own = self.decls()[d.index() as int];
        self.lemma_path(d);
        if own.parent() is Some && decl.parent() is Some {
            let p = own.parent().unwrap();
            let q = decl.parent().unwrap();
            assert(self.allows(own, d.index()));
            if self.path(p) == self.path(q) {
                self.lemma_path_injective(p, q);
            }
        }
        match own {
            Declaration::Item { name: na, .. } => {
                if decl is Item {
                    let nb = decl->Item_name;
                    if na != nb {
                        assert(self.allows(own, d.index()));
                        assert(self.texts()[na.0 as int] != self.texts()[nb.0 as int] || na.0 > nb.0);
                        if na.0 < nb.0 {
                            assert(self.texts()[na.0 as int] != self.texts()[nb.0 as int]);
                        } else {
                            assert(self.texts()[nb.0 as int] != self.texts()[na.0 as int]);
                        }
                    }
                }
            },
            Declaration::Local { name: na, .. } => {
                if decl is Local {
                    let nb = decl->Local_name;
                    if na != nb {
                        assert(self.allows(own, d.index()));
                        if na.0 < nb.0 {
                            assert(self.texts()[na.0 as int] != self.texts()[nb.0 as int]);
                        } else {
                            assert(self.texts()[nb.0 as int] != self.texts()[na.0 as int]);
                        }
                    }
                }
            },
            Declaration::Unnamable { .. } => {},
        }
    }

    /// What `d` is made of, if it is a name of this table.
    pub fn lookup(&self, d: DeclarableName) -> (r: Option<Declaration>)
        ensures
            r == (if self.has(d) {
                Some(self.decls()[d.index() as int])
            } else {
                None
            }),
    {
        let i = match d {
            DeclarableName::Item(n) => n.0,
            DeclarableName::Local(n) => n.0,
            DeclarableName::Unnamable(n) => n.0,
        };
        if i >= self.decls.len() {
            return None;
        }
        let decl = self.decls[i];
        match (d, decl) {
            (DeclarableName::Item(_), Declaration::Item { .. }) => Some(decl),
            (DeclarableName::Local(_), Declaration::Local { .. }) => Some(decl),
            (DeclarableName::Unnamable(_), Declaration::Unnamable { .. }) => Some(decl),
            _ => None,
        }
    }

    /// The text of the raw name `r`.
    pub fn text(&self, r: RawName) -> (s: &String)
        requires
            self.has_raw(r),
        ensures
            s@ == self.texts()[r.0 as int],
    {
        &self.texts[r.0]
    }

    /// The name that `d` is declared within.
    pub fn parent(&self, d: DeclarableName) -> (p: Option<DeclarableName>)
        requires
            self.wf(),
            self.has(d),
        ensures
            p == self.decls()[d.index() as int].parent(),
            self.has_parent(p, d.index()),
            self.path(d).parent() == self.parent_path(p),
    {
        proof {
            self.lemma_path(d);
            assert(self.allows(self.decls()[d.index() as int], d.index()));
        }
        let i = match d {
            DeclarableName::Item(n) => n.0,
            DeclarableName::Local(n) => n.0,
            DeclarableName::Unnamable(n) => n.0,
        };
        match self.decls[i] {
            Declaration::Item { parent, .. } => parent,
            Declaration::Local { parent, .. } => parent,
            Declaration::Unnamable { parent, .. } => parent,
        }
    }
}


/// Whether `v` lists the names of `m` in `t`, each with its span.
pub open spec fn lists(t: NameTable, v: Seq<(Name, Span)>, m: Map<NamePath, Span>) -> bool {
    &&& forall|i: int| #![trigger v[i]] 0 <= i < v.len() ==> t.has(v[i].0.spec_declarable())
    &&& forall|i: int|
        #![trigger v[i]]
        0 <= i < v.len() ==> m.contains_key(t.name_path(v[i].0)) && m[t.name_path(v[i].0)]
            == v[i].1
    &&& forall|p: NamePath|
        #[trigger] m.contains_key(p) ==> exists|i: int|
            0 <= i < v.len() && t.name_path(#[trigger] v[i].0) == p
}

/// Whether `v` lists the texts of `m` in `t`, each with its span.
pub open spec fn lists_raw(t: NameTable, v: Seq<(RawName, Span)>, m: Map<Seq<char>, Span>) -> bool {
    &&& forall|i: int| #![trigger v[i]] 0 <= i < v.len() ==> t.has_raw(v[i].0)
    &&& forall|i: int|
        #![trigger v[i]]
        0 <= i < v.len() ==> m.contains_key(t.texts()[v[i].0.0 as int]) && m[t.texts()[v[i].0.0 as int]]
            == v[i].1
    &&& forall|s: Seq<char>|
        #[trigger] m.contains_key(s) ==> exists|i: int|
            0 <= i < v.len() && t.texts()[(#[trigger] v[i]).0.0 as int] == s
}

/// A listing stays one as the table grows.
pub proof fn lemma_lists_grow(t: NameTable, t2: NameTable, v: Seq<(Name, Span)>, m: Map<NamePath, Span>)
    requires
        t.grows_into(t2),
        lists(t, v, m),
    ensures
        lists(t2, v, m),
{
    assert forall|i: int| #![trigger v[i]] 0 <= i < v.len() implies t2.name_path(v[i].0) == t.name_path(v[i].0) && t2.has(v[i].0.spec_declarable()) by {
        assert(t.has(v[i].0.spec_declarable()));
    }
    assert forall|p: NamePath| #[trigger] m.contains_key(p) implies exists|i: int|
        0 <= i < v.len() && t2.name_path(#[trigger] v[i].0) == p by {
        let i = choose|i: int| 0 <= i < v.len() && t.name_path(#[trigger] v[i].0) == p;
        assert(t2.name_path(v[i].0) == p);
    }
}

/// A listing of texts stays one as the table grows.
pub proof fn lemma_lists_raw_grow(t: NameTable, t2: NameTable, v: Seq<(RawName, Span)>, m: Map<Seq<char>, Span>)
    requires
        t.grows_into(t2),
        lists_raw(t, v, m),
    ensures
        lists_raw(t2, v, m),
{
    assert forall|i: int| #![trigger v[i]] 0 <= i < v.len() implies t2.texts()[v[i].0.0 as int] == t.texts()[v[i].0.0 as int] by {
        assert(t.has_raw(v[i].0));
    }
    assert forall|s: Seq<char>| #[trigger] m.contains_key(s) implies exists|i: int|
        0 <= i < v.len() && t2.texts()[(#[trigger] v[i]).0.0 as int] == s by {
        let i = choose|i: int| 0 <= i < v.len() && t.texts()[(#[trigger] v[i]).0.0 as int] == s;
        assert(t.has_raw(v[i].0));
        assert(t2.texts()[v[i].0.0 as int] == s);
    }
}

/// Whether every name of `v` is an item name.
pub open spec fn only_items(v: Seq<(Name, Span)>) -> bool {
    forall|i: int| 0 <= i < v.len() ==> (#[trigger] v[i]).0 is Item
}

/// Listing one more name that was not listed.
pub proof fn lemma_lists_push(t: NameTable, v: Seq<(Name, Span)>, m: Map<NamePath, Span>, n: Name, s: Span)
    requires
        lists(t, v, m),
        t.has(n.spec_declarable()),
        !m.contains_key(t.name_path(n)),
    ensures
        lists(t, v.push((n, s)), m.insert(t.name_path(n), s)),
{
    let v2 = v.push((n, s));
    let m2 = m.insert(t.name_path(n), s);
    assert forall|i: int| #![trigger v2[i]] 0 <= i < v2.len() implies t.has(v2[i].0.spec_declarable())
        && m2.contains_key(t.name_path(v2[i].0)) && m2[t.name_path(v2[i].0)] == v2[i].1 by {
        if i < v.len() {
            assert(v2[i] == v[i]);
        }
    }
    assert forall|p: NamePath| #[trigger] m2.contains_key(p) implies exists|i: int|
        0 <= i < v2.len() && t.name_path(#[trigger] v2[i].0) == p by {
        if p == t.name_path(n) {
            assert(v2[v.len() as int].0 == n);
        } else {
            let i = choose|i: int| 0 <= i < v.len() && t.name_path(#[trigger] v[i].0) == p;
            assert(v2[i] == v[i]);
        }
    }
}

/// Listing one more text that was not listed.
pub proof fn lemma_lists_raw_push(t: NameTable, v: Seq<(RawName, Span)>, m: Map<Seq<char>, Span>, r: RawName, s: Span)
    requires
        lists_raw(t, v, m),
        t.has_raw(r),
        !m.contains_key(t.texts()[r.0 as int]),
    ensures
        lists_raw(t, v.push((r, s)), m.insert(t.texts()[r.0 as int], s)),
{
    let v2 = v.push((r, s));
    let m2 = m.insert(t.texts()[r.0 as int], s);
    assert forall|i: int| #![trigger v2[i]] 0 <= i < v2.len() implies t.has_raw(v2[i].0)
        && m2.contains_key(t.texts()[v2[i].0.0 as int]) && m2[t.texts()[v2[i].0.0 as int]] == v2[i].1 by {
        if i < v.len() {
            assert(v2[i] == v[i]);
        }
    }
    assert forall|x: Seq<char>| #[trigger] m2.contains_key(x) implies exists|i: int|
        0 <= i < v2.len() && t.texts()[(#[trigger] v2[i]).0.0 as int] == x by {
        if x == t.texts()[r.0 as int] {
            assert(v2[v.len() as int].0 == r);
        } else {
            let i = choose|i: int| 0 <= i < v.len() && t.texts()[(#[trigger] v[i]).0.0 as int] == x;
            assert(v2[i] == v[i]);
        }
    }
}

/// Add to the list `outer` of the names of `mo` the names of the list
/// `inner` of `mi` that it does not hold yet.
pub fn take_names(
    t: &NameTable,
    outer: &mut Vec<(Name, Span)>,
    inner: Vec<(Name, Span)>,
    Ghost(mo): Ghost<Map<NamePath, Span>>,
    Ghost(mi): Ghost<Map<NamePath, Span>>,
)
    requires
        t.wf(),
        lists(*t, old(outer)@, mo),
        lists(*t, inner@, mi),
    ensures
        lists(*t, final(outer)@, mi.union_prefer_right(mo)),
        only_items(old(outer)@) && only_items(inner@) ==> only_items(final(outer)@),
{
    let ghost start = outer@;
    let ghost mut m = mo;
    let mut i: usize = 0;
    while i < inner.len()
        invariant
            t.wf(),
            lists(*t, inner@, mi),
            lists(*t, outer@, m),
            i <= inner@.len(),
            forall|q: NamePath| #[trigger] m.contains_key(q) ==> (mo.contains_key(q) && m[q] == mo[q]) || (
                !mo.contains_key(q) && mi.contains_key(q) && m[q] == mi[q]),
            forall|q: NamePath| #[trigger] mo.contains_key(q) ==> m.contains_key(q),
            forall|j: int| 0 <= j < i ==> m.contains_key(t.name_path(#[trigger] inner@[j].0)),
            only_items(start) && only_items(inner@) ==> only_items(outer@),
        decreases inner@.len() - i,
    {
        let (name, span) = inner[i];
        assert(t.has(inner@[i as int].0.spec_declarable()));
        match find_name(t, outer, name, Ghost(m)) {
            Some(_) => {},
            None => {
                proof {
                    lemma_lists_push(*t, outer@, m, name, span);
                    m = m.insert(t.name_path(name), span);
                }
                outer.push((name, span));
            },
        }
        i = i + 1;
    }
    proof {
        assert(m =~= mi.union_prefer_right(mo)) by {
            assert forall|q: NamePath| #[trigger] mi.contains_key(q) implies m.contains_key(q) by {
                let j = choose|j: int| 0 <= j < inner@.len() && t.name_path(#[trigger] inner@[j].0) == q;
            }
        }
    }
}

/// The span listed for `n`, if any.
pub fn find_name(t: &NameTable, v: &Vec<(Name, Span)>, n: Name, Ghost(m): Ghost<Map<NamePath, Span>>) -> (r: Option<Span>)
    requires
        t.wf(),
        lists(*t, v@, m),
        t.has(n.spec_declarable()),
    ensures
        r == (if m.contains_key(t.name_path(n)) { Some(m[t.name_path(n)]) } else { None }),
{
    let mut i: usize = 0;
    while i < v.len()
        invariant
            t.wf(),
            lists(*t, v@, m),
            t.has(n.spec_declarable()),
            i <= v@.len(),
            forall|j: int| 0 <= j < i ==> (#[trigger] v@[j]).0 != n,
        decreases v@.len() - i,
    {
        if v[i].0 == n {
            return Some(v[i].1);
        }
        i = i + 1;
    }
    proof {
        if m.contains_key(t.name_path(n)) {
            let j = choose|j: int| 0 <= j < v@.len() && t.name_path(#[trigger] v@[j].0) == t.name_path(n);
            assert(t.has(v@[j].0.spec_declarable()));
            t.lemma_path_injective(v@[j].0.spec_declarable(), n.spec_declarable());
            assert(v@[j].0 == n);
        }
    }
    None
}

/// The span listed for the text of `r`, if any.
pub fn find_raw(t: &NameTable, v: &Vec<(RawName, Span)>, r: RawName, Ghost(m): Ghost<Map<Seq<char>, Span>>) -> (s: Option<Span>)
    requires
        t.wf(),
        lists_raw(*t, v@, m),
        t.has_raw(r),
    ensures
        s == (if m.contains_key(t.texts()[r.0 as int]) { Some(m[t.texts()[r.0 as int]]) } else { None }),
{
    let mut i: usize = 0;
    while i < v.len()
        invariant
            t.wf(),
            lists_raw(*t, v@, m),
            t.has_raw(r),
            i <= v@.len(),
            forall|j: int| 0 <= j < i ==> (#[trigger] v@[j]).0 != r,
        decreases v@.len() - i,
    {
        if v[i].0 == r {
            return Some(v[i].1);
        }
        i = i + 1;
    }
    proof {
        let text = t.texts()[r.0 as int];
        if m.contains_key(text) {
            let j = choose|j: int| 0 <= j < v@.len() && t.texts()[(#[trigger] v@[j]).0.0 as int] == text;
            assert(t.has_raw(v@[j].0));
            let a = v@[j].0.0 as int;
            let b = r.0 as int;
            if a < b {
                assert(t.texts()[a] != t.texts()[b]);
            } else if b < a {
                assert(t.texts()[b] != t.texts()[a]);
            }
            assert(v@[j].0 == r);
        }
    }
    None
}

/// The state that declaring and resolving share: the name table, the names
/// of the modules there are, and the messages reported so far.
pub struct NameDb {
    pub table: NameTable,
    pub modules: Vec<ItemName>,
    pub messages: Vec<Message>,
}

impl NameDb {
    /// The table is well formed and holds every module name.
    pub open spec fn wf(self) -> bool {
        &&& self.table.wf()
        &&& forall|i: int|
            0 <= i < self.modules@.len() ==> self.table.has(
                DeclarableName::Item(#[trigger] self.modules@[i]),
            )
    }

    /// The spelled out names of the modules.
    pub open spec fn module_paths(self) -> Set<NamePath> {
        Set::new(
            |p: NamePath|
                exists|i: int|
                    0 <= i < self.modules@.len() && self.table.path(
                        DeclarableName::Item(#[trigger] self.modules@[i]),
                    ) == p,
        )
    }

    /// An empty table, with no modules and no messages.
    pub fn new() -> (db: Self)
        ensures
            db.wf(),
            db.table.texts().len() == 0,
            db.table.decls().len() == 0,
            db.modules@.len() == 0,
            db.messages@.len() == 0,
    {
        NameDb { table: NameTable::new(), modules: Vec::new(), messages: Vec::new() }
    }

    /// Record a module named `name` within `parent`, or at the top level,
    /// and give its name.
    pub fn module(&mut self, parent: Option<ItemName>, name: &String) -> (n: ItemName)
        requires
            old(self).wf(),
            parent matches Some(p) ==> old(self).table.has(DeclarableName::Item(p)),
        ensures
            final(self).wf(),
            old(self).table.grows_into(final(self).table),
            final(self).messages == old(self).messages,
            final(self).modules@ == old(self).modules@.push(n),
            final(self).table.has(DeclarableName::Item(n)),
            final(self).table.path(DeclarableName::Item(n)) == (NamePath::Item {
                parent: match parent {
                    Some(p) => Some(Box::new(old(self).table.path(DeclarableName::Item(p)))),
                    None => None,
                },
                name: name@,
            }),
    {
        let raw = self.table.raw(name);
        let within = match parent {
            Some(p) => Some(DeclarableName::Item(p)),
            None => None,
        };
        let n = self.table.item(within, raw);
        self.modules.push(n);
        n
    }

    /// Growing the table keeps the names of the modules.
    pub proof fn lemma_module_paths(self, other: Self)
        requires
            self.wf(),
            self.table.grows_into(other.table),
            other.modules == self.modules,
        ensures
            other.module_paths() == self.module_paths(),
    {
        assert forall|i: int| 0 <= i < self.modules@.len() implies other.table.path(
            DeclarableName::Item(#[trigger] self.modules@[i]),
        ) == self.table.path(DeclarableName::Item(self.modules@[i])) by {
            assert(self.table.has(DeclarableName::Item(self.modules@[i])));
        }
        assert(other.module_paths() =~= self.module_paths());
    }

    /// Whether `n` names a module.
    pub fn is_module(&self, n: ItemName) -> (b: bool)
        requires
            self.wf(),
            self.table.has(DeclarableName::Item(n)),
        ensures
            b == self.module_paths().contains(self.table.path(DeclarableName::Item(n))),
    {
        let mut i: usize = 0;
        while i < self.modules.len()
            invariant
                self.wf(),
                self.table.has(DeclarableName::Item(n)),
                i <= self.modules@.len(),
                forall|j: int| 0 <= j < i ==> (#[trigger] self.modules@[j]) != n,
            decreases self.modules@.len() - i,
        {
            if self.modules[i] == n {
                return true;
            }
            i = i + 1;
        }
        proof {
            if self.module_paths().contains(self.table.path(DeclarableName::Item(n))) {
                let j = choose|j: int| 0 <= j < self.modules@.len() && self.table.path(
                    DeclarableName::Item(#[trigger] self.modules@[j]),
                ) == self.table.path(DeclarableName::Item(n));
                self.table.lemma_path_injective(DeclarableName::Item(self.modules@[j]), DeclarableName::Item(n));
            }
        }
        false
    }
}

} // verus!

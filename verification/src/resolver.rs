//! Lexically scoped name bindings: variables, functions, dimensions and
//! units. A scope stack grows by one nested scope per function body being
//! checked; lookup walks innermost to outermost. Shadowing across scopes is
//! permitted; redeclaring a name within the same scope is an error. The
//! resolver also records each registered code source, minting the stable
//! identities that spans carry.

use vstd::prelude::*;
use crate::error::TypeCheckErrorKind;
use crate::registry::BaseRepresentation;

verus! {

/// Where a source text came from.
#[derive(Debug, Clone, PartialEq)]
pub enum CodeSource {
    /// Interactive or inline text.
    Text,
    /// A file, by name.
    File(String),
    /// Internally generated text.
    Internal,
}

/// A function's signature: its ordered, named parameter types and its
/// return type (inferred from the body at declaration time when it was not
/// declared explicitly).
#[derive(Debug, Clone, PartialEq)]
pub struct FunctionSignature {
    pub parameters: Vec<(String, BaseRepresentation)>,
    pub return_type: BaseRepresentation,
}

impl FunctionSignature {
    /// Every type in the signature is canonical.
    pub open spec fn wf_sig(self) -> bool {
        self.return_type.wf() && forall|i: int|
            0 <= i < self.parameters@.len() ==> (#[trigger] self.parameters@[i]).1.wf()
    }
}

/// What a name is bound to.
#[derive(Debug, Clone, PartialEq)]
pub enum Binding {
    Variable(BaseRepresentation),
    Function(FunctionSignature),
    Dimension(u64),
    Unit(BaseRepresentation),
}

impl Binding {
    /// Every dimension type this binding carries is canonical.
    pub open spec fn wf(self) -> bool {
        match self {
            Binding::Variable(t) => t.wf(),
            Binding::Function(sig) => sig.wf_sig(),
            Binding::Dimension(_) => true,
            Binding::Unit(t) => t.wf(),
        }
    }
}

/// Lookup within one scope, innermost declaration last.
pub open spec fn spec_lookup_in(s: Seq<(String, Binding)>, name: Seq<char>) -> Option<Binding>
    decreases s.len(),
{
    if s.len() == 0 {
        None
    } else if s.last().0@ == name {
        Some(s.last().1)
    } else {
        spec_lookup_in(s.drop_last(), name)
    }
}

/// A failed lookup means no entry of the scope carries the name.
pub proof fn lemma_lookup_none(s: Seq<(String, Binding)>, name: Seq<char>)
    requires
        spec_lookup_in(s, name) is None,
    ensures
        forall|t: int| 0 <= t < s.len() ==> (#[trigger] s[t]).0@ != name,
    decreases s.len(),
{
    if s.len() > 0 {
        assert(s.last().0@ != name);
        assert(forall|t: int|
            0 <= t < s.drop_last().len() ==> (#[trigger] s.drop_last()[t]) == s[t]);
        lemma_lookup_none(s.drop_last(), name);
        assert forall|t: int| 0 <= t < s.len() implies (#[trigger] s[t]).0@ != name by {
            if t == s.len() - 1 {
                assert(s[t] == s.last());
            } else {
                assert(s.drop_last()[t] == s[t]);
            }
        }
    }
}

/// A successful lookup names some entry of the scope.
pub proof fn lemma_lookup_some_witness(s: Seq<(String, Binding)>, name: Seq<char>)
    requires
        spec_lookup_in(s, name) is Some,
    ensures
        exists|t: int| 0 <= t < s.len() && (#[trigger] s[t]).0@ == name,
    decreases s.len(),
{
    if s.len() > 0 && s.last().0@ != name {
        assert(forall|t: int|
            0 <= t < s.drop_last().len() ==> (#[trigger] s.drop_last()[t]) == s[t]);
        lemma_lookup_some_witness(s.drop_last(), name);
        let t = choose|t: int| 0 <= t < s.drop_last().len() && (#[trigger] s.drop_last()[t]).0@
            == name;
        assert(s[t].0@ == name);
    } else if s.len() > 0 {
        assert(s[s.len() - 1].0@ == name);
    }
}

/// Lookup across the scope stack, innermost scope (the last) first.
pub open spec fn spec_resolve_in(scopes: Seq<Vec<(String, Binding)>>, name: Seq<char>) -> Option<
    Binding,
>
    decreases scopes.len(),
{
    if scopes.len() == 0 {
        None
    } else {
        match spec_lookup_in(scopes.last()@, name) {
            Some(b) => Some(b),
            None => spec_resolve_in(scopes.drop_last(), name),
        }
    }
}

/// The scoped name resolver.
pub struct Resolver {
    pub scopes: Vec<Vec<(String, Binding)>>,
    pub code_sources: Vec<(CodeSource, String)>,
}

impl Resolver {
    /// At least the global scope exists, and every binding is canonical.
    pub open spec fn wf(self) -> bool {
        &&& self.scopes@.len() >= 1
        &&& forall|i: int, j: int|
            0 <= i < self.scopes@.len() && 0 <= j < (#[trigger] self.scopes@[i])@.len() ==> (
            #[trigger] self.scopes@[i]@[j]).1.wf()
        &&& forall|i: int, j: int, k: int|
            0 <= i < self.scopes@.len() && 0 <= j < k < (#[trigger] self.scopes@[i])@.len() ==> (
            #[trigger] self.scopes@[i]@[j]).0@ != (#[trigger] self.scopes@[i]@[k]).0@
    }

    /// What `name` resolves to, as the checker sees it.
    pub open spec fn spec_resolve(self, name: Seq<char>) -> Option<Binding> {
        spec_resolve_in(self.scopes@, name)
    }

    /// Whether `name` is already declared in the innermost scope.
    pub open spec fn declared_here(self, name: Seq<char>) -> bool {
        spec_lookup_in(self.scopes@.last()@, name) is Some
    }

    /// A fresh resolver: one empty global scope, no code sources.
    pub fn new() -> (r: Resolver)
        ensures
            r.wf(),
            r.scopes@.len() == 1,
            r.scopes@[0]@.len() == 0,
            r.code_sources@.len() == 0,
    {
        let mut scopes: Vec<Vec<(String, Binding)>> = Vec::new();
        scopes.push(Vec::new());
        Resolver { scopes, code_sources: Vec::new() }
    }

    /// Record one code source and mint its stable identity.
    pub fn add_code_source(&mut self, source: CodeSource, text: &str) -> (r: usize)
        requires
            old(self).wf(),
        ensures
            final(self).wf(),
            r == old(self).code_sources@.len(),
            final(self).code_sources@.len() == old(self).code_sources@.len() + 1,
            final(self).code_sources@.last().0 == source,
            final(self).code_sources@.last().1@ == text@,
            forall|t: int|
                0 <= t < old(self).code_sources@.len() ==> (#[trigger] final(self).code_sources@[t]) == old(self).code_sources@[t],
            final(self).scopes@ == old(self).scopes@,
    {
        let id = self.code_sources.len();
        self.code_sources.push((source, text.to_owned()));
        id
    }

    /// Open a nested scope (entering a function body).
    pub fn push_scope(&mut self)
        requires
            old(self).wf(),
        ensures
            final(self).wf(),
            final(self).scopes@.len() == old(self).scopes@.len() + 1,
            final(self).scopes@.last()@.len() == 0,
            forall|t: int|
                0 <= t < old(self).scopes@.len() ==> (#[trigger] final(self).scopes@[t]) == old(
                    self,
                ).scopes@[t],
            final(self).code_sources@ == old(self).code_sources@,
    {
        self.scopes.push(Vec::new());
    }

    /// Close the innermost scope (leaving a function body).
    pub fn pop_scope(&mut self)
        requires
            old(self).wf(),
            old(self).scopes@.len() >= 2,
        ensures
            final(self).wf(),
            final(self).scopes@ == old(self).scopes@.drop_last(),
            final(self).code_sources@ == old(self).code_sources@,
    {
        self.scopes.pop();
    }

    /// Look `name` up, innermost scope first.
    pub fn resolve(&self, name: &str) -> (r: Option<&Binding>)
        requires
            self.wf(),
        ensures
            r is Some <==> self.spec_resolve(name@) is Some,
            r is Some ==> *r->Some_0 == self.spec_resolve(name@)->Some_0,
            r is Some ==> r->Some_0.wf(),
    {
        let owned: String = name.to_owned();
        let ns = self.scopes.len();
        let mut i: usize = ns;
        proof {
            assert(self.scopes@.take(ns as int) =~= self.scopes@);
        }
        while i > 0
            invariant
                0 <= i <= ns,
                ns == self.scopes@.len(),
                owned@ == name@,
                self.wf(),
                spec_resolve_in(self.scopes@.take(i as int), name@) == self.spec_resolve(name@),
            decreases i,
        {
            i -= 1;
            let scope: &Vec<(String, Binding)> = &self.scopes[i];
            let m = scope.len();
            let mut j: usize = m;
            proof {
                assert(self.scopes@.take(i as int + 1).last() == self.scopes@[i as int]);
                assert(self.scopes@.take(i as int + 1).drop_last() =~= self.scopes@.take(i as int));
                assert(scope@.take(m as int) =~= scope@);
            }
            while j > 0
                invariant
                    0 <= j <= m,
                    m == scope@.len(),
                    owned@ == name@,
                    self.wf(),
                    *scope == self.scopes@[i as int],
                    0 <= i < ns,
                    ns == self.scopes@.len(),
                    spec_lookup_in(scope@.take(j as int), name@) == spec_lookup_in(scope@, name@),
                    spec_resolve_in(self.scopes@.take(i as int + 1), name@) == self.spec_resolve(
                        name@,
                    ),
                decreases j,
            {
                j -= 1;
                proof {
                    assert(scope@.take(j as int + 1).last() == scope@[j as int]);
                    assert(scope@.take(j as int + 1).drop_last() =~= scope@.take(j as int));
                }
                if scope[j].0 == owned {
                    proof {
                        assert(scope@[j as int].0@ == name@);
                        assert(spec_lookup_in(scope@.take(j as int + 1), name@) == Some(
                            scope@[j as int].1,
                        ));
                        assert(spec_lookup_in(scope@, name@) == Some(scope@[j as int].1));
                        let tk = self.scopes@.take(i as int + 1);
                        assert(tk.last() == self.scopes@[i as int]);
                        assert(tk.last()@ == scope@);
                        assert(spec_resolve_in(tk, name@) == Some(scope@[j as int].1));
                        assert(self.spec_resolve(name@) == Some(scope@[j as int].1));
                    }
                    return Some(&self.scopes[i][j].1);
                }
            }
            proof {
                assert(scope@.take(0) =~= Seq::<(String, Binding)>::empty());
                assert(spec_lookup_in(scope@, name@) is None);
            }
        }
        proof {
            assert(self.scopes@.take(0) =~= Seq::<Vec<(String, Binding)>>::empty());
        }
        None
    }

    /// Bind `name` in the innermost scope. Fails with `Redeclaration` when
    /// the same scope already binds it; the resolver is then unchanged.
    pub fn declare(&mut self, name: &str, binding: Binding) -> (r: Result<(), TypeCheckErrorKind>)
        requires
            old(self).wf(),
            binding.wf(),
        ensures
            final(self).wf(),
            old(self).declared_here(name@) ==> (r matches Err(
                TypeCheckErrorKind::Redeclaration(n),
            ) && n@ == name@ && *final(self) == *old(self)),
            !old(self).declared_here(name@) ==> {
                &&& r is Ok
                &&& final(self).scopes@.len() == old(self).scopes@.len()
                &&& forall|t: int|
                    0 <= t < old(self).scopes@.len() - 1 ==> (#[trigger] final(self).scopes@[t])
                        == old(self).scopes@[t]
                &&& final(self).scopes@.last()@.last().0@ == name@
                &&& final(self).scopes@.last()@.last().1 == binding
                &&& final(self).scopes@.last()@.len() == old(self).scopes@.last()@.len() + 1
                &&& forall|t: int|
                    0 <= t < old(self).scopes@.last()@.len() ==> (#[trigger] final(self).scopes@.last()@[t]) == old(self).scopes@.last()@[t]
                &&& final(self).spec_resolve(name@) == Some(binding)
            },
            final(self).code_sources@ == old(self).code_sources@,
    {
        if self.lookup_here(name) {
            return Err(TypeCheckErrorKind::Redeclaration(name.to_owned()));
        }
        let owned = name.to_owned();
        let mut scope = self.scopes.pop().unwrap();
        scope.push((owned, binding));
        self.scopes.push(scope);
        proof {
            let ns = self.scopes@;
            assert(ns.last() == ns[ns.len() - 1]);
            assert(ns.last()@.last().0@ == name@);
            assert(ns.last()@.drop_last() =~= old(self).scopes@.last()@);
            assert(spec_lookup_in(ns.last()@, name@) == Some(binding));
            lemma_lookup_none(old(self).scopes@.last()@, name@);
            assert(forall|t: int|
                0 <= t < ns.len() - 1 ==> (#[trigger] ns[t]) == old(self).scopes@[t]);
            assert(forall|t: int|
                0 <= t < old(self).scopes@.last()@.len() ==> (#[trigger] ns.last()@[t]) == old(
                self,
            ).scopes@.last()@[t]);
        }
        Ok(())
    }

    /// Whether the innermost scope already binds `name`.
    pub fn lookup_here(&self, name: &str) -> (r: bool)
        requires
            self.wf(),
        ensures
            r == self.declared_here(name@),
    {
        let owned: String = name.to_owned();
        let last = self.scopes.len() - 1;
        let scope: &Vec<(String, Binding)> = &self.scopes[last];
        let m = scope.len();
        let mut j: usize = m;
        proof {
            assert(self.scopes@.last() == self.scopes@[last as int]);
            assert(scope@.take(m as int) =~= scope@);
        }
        while j > 0
            invariant
                0 <= j <= m,
                m == scope@.len(),
                owned@ == name@,
                *scope == self.scopes@[last as int],
                last == self.scopes@.len() - 1,
                self.wf(),
                spec_lookup_in(scope@.take(j as int), name@) == spec_lookup_in(scope@, name@),
            decreases j,
        {
            j -= 1;
            proof {
                assert(scope@.take(j as int + 1).last() == scope@[j as int]);
                assert(scope@.take(j as int + 1).drop_last() =~= scope@.take(j as int));
            }
            if scope[j].0 == owned {
                proof {
                    assert(spec_lookup_in(scope@, name@) is Some);
                }
                return true;
            }
        }
        proof {
            assert(scope@.take(0) =~= Seq::<(String, Binding)>::empty());
        }
        false
    }
}

} // verus!

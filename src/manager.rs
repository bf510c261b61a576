//! The provider interface and the registry that resolves names through
//! the providers registered for their basenames.

use crate::error::{ErrorModel, TypeError};
use crate::naming::{
    NameModel, ParamModel, TypeNameRef, TypeParameter, lemma_params_model, param_model, params_model, render,
};
use crate::builtin::{BuiltinTypeProvider, builtin_resolve, builtin_super_type};
use crate::types::{Type, TypeModel, TypeRef, model_name, same_type};
use std::sync::Arc;
use vstd::prelude::*;

verus! {

/// The structure of each resolved parameter type, `None` for numeric parameters.
pub open spec fn option_models(s: Seq<Option<TypeRef>>) -> Seq<Option<TypeModel>> {
    s.map_values(
        |o: Option<TypeRef>|
            match o {
                Some(t) => Some(t.model()),
                None => None,
            },
    )
}

/// The structure of a resolution outcome.
pub open spec fn type_result_model(r: Result<TypeRef, TypeError>) -> Result<TypeModel, ErrorModel> {
    match r {
        Ok(t) => Ok(t.model()),
        Err(e) => Err(e@),
    }
}

/// The structure of a common-supertype outcome.
pub open spec fn super_result_model(r: Result<Option<TypeRef>, TypeError>) -> Result<
    Option<TypeModel>,
    ErrorModel,
> {
    match r {
        Ok(Some(t)) => Ok(Some(t.model())),
        Ok(None) => Ok(None),
        Err(e) => Err(e@),
    }
}

/// What one registration of `provider` for basename `b` does to a registry
/// `before`: it fails with a duplicate-registration error and changes nothing
/// when `b` is taken, and otherwise succeeds and adds the entry.
pub open spec fn registration<P>(
    before: Map<Seq<char>, P>,
    b: Seq<char>,
    provider: P,
    after: Map<Seq<char>, P>,
    r: Result<(), ErrorModel>,
) -> bool {
    if before.contains_key(b) {
        r == Err::<(), ErrorModel>(ErrorModel::DuplicateProviderRegistration(b)) && after == before
    } else {
        r == Ok::<(), ErrorModel>(()) && after == before.insert(b, provider)
    }
}

/// The structure of a registration outcome.
pub open spec fn unit_result_model(r: Result<(), TypeError>) -> Result<(), ErrorModel> {
    match r {
        Ok(()) => Ok(()),
        Err(e) => Err(e@),
    }
}

/// A pluggable resolver for the type families it is registered for.
pub trait TypeProvider {
    /// What `resolve` returns, given a name and the structure of its
    /// already-resolved parameters.
    spec fn resolve_spec(&self, name: NameModel, params: Seq<Option<TypeModel>>) -> Result<
        TypeModel,
        ErrorModel,
    >;

    /// What `common_super_type` returns for two types.
    spec fn super_type_spec(&self, a: TypeModel, b: TypeModel) -> Result<Option<TypeModel>, ErrorModel>;

    /// Builds the type that `name` denotes. Entry `i` of `resolved` holds the
    /// resolved type of parameter `i` when it is a nested name, `None` when it
    /// is a number.
    fn resolve(&self, name: &TypeNameRef, resolved: &[Option<TypeRef>]) -> (r: Result<TypeRef, TypeError>)
        requires
            resolved@.len() == name@.parameters().len(),
            forall|i: int|
                0 <= i < resolved@.len() ==> (#[trigger] resolved@[i] is Some <==> name@.parameters()[i] is Type),
        ensures
            type_result_model(r) == self.resolve_spec(name@, option_models(resolved@)),
    ;

    /// A type that both `a` and `b` convert to, `None` when there is none.
    fn common_super_type(&self, a: &TypeRef, b: &TypeRef) -> (r: Result<Option<TypeRef>, TypeError>)
        ensures
            super_result_model(r) == self.super_type_spec(a.model(), b.model()),
    ;
}

/// A registry from basenames to the providers that resolve them. It is
/// generic over the provider type; a registry that serves several families
/// uses a provider type that dispatches among them.
pub struct TypeManager<P: TypeProvider> {
    /// One entry per basename. A vector with distinct basenames rather than
    /// a hash map, whose specification says nothing usable for `String` keys.
    providers: Vec<(String, Arc<P>)>,
}

impl<P: TypeProvider> View for TypeManager<P> {
    type V = Map<Seq<char>, P>;

    closed spec fn view(&self) -> Map<Seq<char>, P> {
        Map::new(
            |b: Seq<char>| exists|i: int| 0 <= i < self.providers@.len() && #[trigger] self.providers@[i].0@ == b,
            |b: Seq<char>|
                *self.providers@[choose|i: int|
                    0 <= i < self.providers@.len() && #[trigger] self.providers@[i].0@ == b].1,
        )
    }
}

impl<P: TypeProvider> TypeManager<P> {
    /// Each basename has at most one entry.
    pub closed spec fn wf(self) -> bool {
        forall|i: int, j: int|
            0 <= i < j < self.providers@.len() ==> #[trigger] self.providers@[i].0@ != #[trigger] self.providers@[j].0@
    }

    /// What `resolve` returns for a name: an unknown basename fails first;
    /// then the nested parameters are resolved in order, and the first
    /// failure among them is the outcome; otherwise the basename's provider
    /// decides.
    pub open spec fn resolve_spec(self, t: NameModel) -> Result<TypeModel, ErrorModel>
        decreases t, 0int,
    {
        match t {
            NameModel::Name { basename, parameters } => {
                if !self@.contains_key(basename) {
                    Err(ErrorModel::UnknownBasename(basename))
                } else {
                    match self.resolve_params_spec(parameters, parameters.len() as int) {
                        Err(e) => Err(e),
                        Ok(rs) => self@[basename].resolve_spec(t, rs),
                    }
                }
            },
        }
    }

    /// The first `n` parameters resolved in order, or the first failure.
    pub open spec fn resolve_params_spec(self, ps: Seq<ParamModel>, n: int) -> Result<
        Seq<Option<TypeModel>>,
        ErrorModel,
    >
        decreases ps, n,
    {
        if n <= 0 || n > ps.len() {
            Ok(Seq::empty())
        } else {
            match self.resolve_params_spec(ps, n - 1) {
                Err(e) => Err(e),
                Ok(rs) => match ps[n - 1] {
                    ParamModel::Number(_) => Ok(rs.push(None)),
                    ParamModel::Type(t) => match self.resolve_spec(t) {
                        Err(e) => Err(e),
                        Ok(m) => Ok(rs.push(Some(m))),
                    },
                },
            }
        }
    }

    pub fn new() -> (r: TypeManager<P>)
        ensures
            r.wf(),
            r@ == Map::<Seq<char>, P>::empty(),
    {
        let r = TypeManager { providers: Vec::new() };
        assert(r@ =~= Map::<Seq<char>, P>::empty());
        r
    }

    /// The position of the entry for `basename`, if any.
    fn find(&self, basename: &String) -> (r: Option<usize>)
        requires
            self.wf(),
        ensures
            match r {
                Some(i) => i < self.providers@.len() && self.providers@[i as int].0@ == basename@,
                None => !self@.contains_key(basename@),
            },
    {
        let mut i: usize = 0;
        while i < self.providers.len()
            invariant
                0 <= i <= self.providers@.len(),
                forall|j: int| 0 <= j < i ==> self.providers@[j].0@ != basename@,
            decreases self.providers.len() - i,
        {
            if self.providers[i].0 == *basename {
                return Some(i);
            }
            i = i + 1;
        }
        None
    }

    proof fn lemma_entry(&self, i: int)
        requires
            self.wf(),
            0 <= i < self.providers@.len(),
        ensures
            self@.contains_key(self.providers@[i].0@),
            self@[self.providers@[i].0@] == *self.providers@[i].1,
    {
        let b = self.providers@[i].0@;
        assert(self.providers@[i].0@ == b);
        let k = choose|k: int| 0 <= k < self.providers@.len() && #[trigger] self.providers@[k].0@ == b;
        assert(k == i);
    }

    /// Installs `provider` for `basename`; fails without any change when one
    /// is already registered for it.
    pub fn register_provider(&mut self, basename: &str, provider: &Arc<P>) -> (r: Result<(), TypeError>)
        requires
            old(self).wf(),
        ensures
            final(self).wf(),
            registration(old(self)@, basename@, **provider, final(self)@, unit_result_model(r)),
    {
        let name = String::from_str(basename);
        match self.find(&name) {
            Some(_) => Err(TypeError::DuplicateProviderRegistration(name)),
            None => {
                let ghost before = *self;
                self.providers.push((name, provider.clone()));
                assert(before.wf());
                proof {
                    assert forall|i: int, j: int|
                        0 <= i < j < self.providers@.len() implies #[trigger] self.providers@[i].0@
                        != #[trigger] self.providers@[j].0@ by {
                        if j == self.providers@.len() - 1 {
                            assert(before.providers@[i] == self.providers@[i]);
                            assert(before@.contains_key(before.providers@[i].0@)) by {
                                assert(before.providers@[i].0@ == before.providers@[i].0@);
                            }
                        } else {
                            assert(before.providers@[i] == self.providers@[i]);
                            assert(before.providers@[j] == self.providers@[j]);
                        }
                    }
                    assert(self.wf());
                }
                proof {
                    let n = before.providers@.len() as int;
                    assert forall|b: Seq<char>|
                        #![auto]
                        self@.contains_key(b) == before@.insert(basename@, **provider).contains_key(b) by {
                        if self@.contains_key(b) {
                            let k = choose|k: int|
                                0 <= k < self.providers@.len() && #[trigger] self.providers@[k].0@ == b;
                            if k < n {
                                assert(before.providers@[k] == self.providers@[k]);
                                before.lemma_entry(k);
                            }
                        }
                        if before@.contains_key(b) {
                            let k = choose|k: int|
                                0 <= k < before.providers@.len() && #[trigger] before.providers@[k].0@ == b;
                            assert(self.providers@[k] == before.providers@[k]);
                            self.lemma_entry(k);
                        }
                        if b == basename@ {
                            self.lemma_entry(n);
                        }
                    }
                    assert forall|b: Seq<char>|
                        #![auto]
                        self@.contains_key(b) implies self@[b] == before@.insert(basename@, **provider)[b] by {
                        if b == basename@ {
                            self.lemma_entry(n);
                        } else {
                            let k = choose|k: int|
                                0 <= k < self.providers@.len() && #[trigger] self.providers@[k].0@ == b;
                            assert(k < n);
                            assert(before.providers@[k] == self.providers@[k]);
                            before.lemma_entry(k);
                            self.lemma_entry(k);
                        }
                    }
                    assert(self@ =~= before@.insert(basename@, **provider));
                }
                Ok(())
            },
        }
    }

    /// A failure among the first parameters is the failure of every longer prefix.
    proof fn lemma_params_failure(self, ps: Seq<ParamModel>, k: int, n: int)
        requires
            0 <= k <= n <= ps.len(),
            self.resolve_params_spec(ps, k) is Err,
        ensures
            self.resolve_params_spec(ps, n) == self.resolve_params_spec(ps, k),
        decreases n - k,
    {
        if n > k {
            self.lemma_params_failure(ps, k, n - 1);
        }
    }

    /// Resolves `name`: its nested names first, in order, then the
    /// basename's provider with the resolved parameter types.
    pub fn resolve(&self, name: &TypeNameRef) -> (r: Result<TypeRef, TypeError>)
        requires
            self.wf(),
        ensures
            type_result_model(r) == self.resolve_spec(name@),
        decreases name,
    {
        let basename = String::from_str(name.basename());
        proof {
            (**name).lemma_view();
        }
        match self.find(&basename) {
            None => Err(TypeError::UnknownBasename(basename)),
            Some(idx) => {
                proof {
                    self.lemma_entry(idx as int);
                }
                let parameters = name.parameters();
                let ghost ps = params_model(parameters@);
                proof {
                    lemma_params_model(parameters@);
                }
                let mut resolved: Vec<Option<TypeRef>> = Vec::new();
                assert(option_models(resolved@) =~= Seq::empty());
                let mut i: usize = 0;
                while i < parameters.len()
                    invariant
                        self.wf(),
                        self@.contains_key(name@.basename()),
                        0 <= i <= parameters@.len(),
                        parameters@ == name.parameters_spec(),
                        ps == params_model(parameters@),
                        ps == name@.parameters(),
                        ps.len() == parameters@.len(),
                        forall|j: int| 0 <= j < ps.len() ==> #[trigger] ps[j] == param_model(parameters@[j]),
                        resolved@.len() == i,
                        forall|j: int| 0 <= j < i ==> (#[trigger] resolved@[j] is Some <==> ps[j] is Type),
                        self.resolve_params_spec(ps, i as int) == Ok::<Seq<Option<TypeModel>>, ErrorModel>(
                            option_models(resolved@),
                        ),
                    decreases parameters.len() - i,
                {
                    let ghost before = resolved@;
                    match &parameters[i] {
                        TypeParameter::Type(nested) => {
                            proof {
                                (**name).lemma_parameter_decreases(i as int);
                            }
                            match self.resolve(nested) {
                                Err(e) => {
                                    proof {
                                        assert(ps[i as int] == ParamModel::Type(nested@));
                                        assert(self.resolve_params_spec(ps, i + 1) == Err::<
                                            Seq<Option<TypeModel>>,
                                            ErrorModel,
                                        >(e@));
                                        self.lemma_params_failure(ps, i + 1, ps.len() as int);
                                        assert(name@ == NameModel::Name {
                                            basename: name@.basename(),
                                            parameters: ps,
                                        });
                                    }
                                    return Err(e);
                                },
                                Ok(t) => {
                                    resolved.push(Some(t));
                                },
                            }
                        },
                        TypeParameter::Number(_) => {
                            resolved.push(None);
                        },
                    }
                    assert(option_models(resolved@) =~= option_models(before).push(
                        option_models(resolved@).last(),
                    ));
                    i = i + 1;
                }
                assert(parameters@.len() == i);
                self.providers[idx].1.resolve(name, resolved.as_slice())
            },
        }
    }

    /// A common supertype of `a` and `b`, decided by the provider of `a`'s
    /// basename.
    pub fn common_super_type(&self, a: &TypeRef, b: &TypeRef) -> (r: Result<Option<TypeRef>, TypeError>)
        requires
            self.wf(),
        ensures
            super_result_model(r) == (if self@.contains_key(model_name(a.model()).basename()) {
                self@[model_name(a.model()).basename()].super_type_spec(a.model(), b.model())
            } else {
                Err(ErrorModel::UnknownBasename(model_name(a.model()).basename()))
            }),
    {
        let a_name = a.name();
        let basename = String::from_str(a_name.basename());
        match self.find(&basename) {
            None => Err(TypeError::UnknownBasename(basename)),
            Some(idx) => {
                proof {
                    self.lemma_entry(idx as int);
                }
                self.providers[idx].1.common_super_type(a, b)
            },
        }
    }
}

/// The builtin provider, or a provider of the user's own families. A
/// registry of this provider type holds both side by side.
pub enum CatalogProvider<U> {
    Builtin(BuiltinTypeProvider),
    User(U),
}

impl<U: TypeProvider> TypeProvider for CatalogProvider<U> {
    open spec fn resolve_spec(&self, name: NameModel, params: Seq<Option<TypeModel>>) -> Result<
        TypeModel,
        ErrorModel,
    > {
        match self {
            CatalogProvider::Builtin(_) => builtin_resolve(name, params),
            CatalogProvider::User(u) => u.resolve_spec(name, params),
        }
    }

    open spec fn super_type_spec(&self, a: TypeModel, b: TypeModel) -> Result<Option<TypeModel>, ErrorModel> {
        match self {
            CatalogProvider::Builtin(_) => builtin_super_type(a, b),
            CatalogProvider::User(u) => u.super_type_spec(a, b),
        }
    }

    fn resolve(&self, name: &TypeNameRef, resolved: &[Option<TypeRef>]) -> (r: Result<TypeRef, TypeError>) {
        match self {
            CatalogProvider::Builtin(b) => b.resolve(name, resolved),
            CatalogProvider::User(u) => u.resolve(name, resolved),
        }
    }

    fn common_super_type(&self, a: &TypeRef, b: &TypeRef) -> (r: Result<Option<TypeRef>, TypeError>) {
        match self {
            CatalogProvider::Builtin(p) => p.common_super_type(a, b),
            CatalogProvider::User(u) => u.common_super_type(a, b),
        }
    }
}

/// A provider for families whose types are known by their name alone and
/// take numeric parameters only, such as `decimal(38, 10)`.
pub struct NamedTypeProvider {}

impl TypeProvider for NamedTypeProvider {
    /// A name whose parameters are all numbers is a type of its own;
    /// anything else is a shape mismatch.
    open spec fn resolve_spec(&self, name: NameModel, params: Seq<Option<TypeModel>>) -> Result<
        TypeModel,
        ErrorModel,
    > {
        if forall|i: int| 0 <= i < params.len() ==> #[trigger] params[i] is None {
            Ok(TypeModel::Extension(name))
        } else {
            Err(ErrorModel::ShapeMismatch(render(name)))
        }
    }

    /// Equal types have that type as their common supertype; no other
    /// conversion is defined.
    open spec fn super_type_spec(&self, a: TypeModel, b: TypeModel) -> Result<Option<TypeModel>, ErrorModel> {
        builtin_super_type(a, b)
    }

    fn resolve(&self, name: &TypeNameRef, resolved: &[Option<TypeRef>]) -> (r: Result<TypeRef, TypeError>) {
        let ghost ms = option_models(resolved@);
        let mut i: usize = 0;
        while i < resolved.len()
            invariant
                0 <= i <= resolved@.len(),
                ms == option_models(resolved@),
                forall|j: int| 0 <= j < i ==> #[trigger] ms[j] is None,
            decreases resolved.len() - i,
        {
            if resolved[i].is_some() {
                assert(ms[i as int] is Some);
                return Err(TypeError::ShapeMismatch(String::from_str(name.name())));
            }
            i = i + 1;
        }
        let t = Type::Extension(name.clone());
        proof {
            t.lemma_model();
        }
        Ok(Arc::new(t))
    }

    fn common_super_type(&self, a: &TypeRef, b: &TypeRef) -> (r: Result<Option<TypeRef>, TypeError>) {
        if same_type(a, b) {
            Ok(Some(a.clone()))
        } else {
            Ok(None)
        }
    }
}

} // verus!

//! The provider of the builtin primitive kinds, arrays and maps.

use crate::error::{ErrorModel, TypeError};
use crate::manager::{CatalogProvider, TypeManager, TypeProvider, option_models, super_result_model, type_result_model};
use crate::naming::{NameModel, TypeNameRef, render};
use crate::types::{
    ArrayType, BuiltinPrimitiveType, MapType, Type, TypeModel, TypeRef, all_kinds, array_basename,
    map_basename, same_type,
};
use std::sync::Arc;
use vstd::prelude::*;

verus! {

/// The first builtin kind at or after position `i` whose basename is `b`.
pub open spec fn kind_from(b: Seq<char>, i: int) -> Option<BuiltinPrimitiveType>
    decreases all_kinds().len() - i,
{
    if i < 0 || i >= all_kinds().len() {
        None
    } else if all_kinds()[i].basename_spec() == b {
        Some(all_kinds()[i])
    } else {
        kind_from(b, i + 1)
    }
}

/// The builtin kind whose basename is `b`, if any.
pub open spec fn kind_named(b: Seq<char>) -> Option<BuiltinPrimitiveType> {
    kind_from(b, 0)
}

/// A name without parameters is the builtin kind with that basename;
/// `array` takes one nested type and `map` two; anything else is a
/// shape mismatch.
pub open spec fn builtin_resolve(name: NameModel, params: Seq<Option<TypeModel>>) -> Result<
    TypeModel,
    ErrorModel,
> {
    let n = name.parameters().len();
    if n == 0 && kind_named(name.basename()) is Some {
        Ok(TypeModel::Primitive(kind_named(name.basename())->Some_0))
    } else if name.basename() == array_basename() && n == 1 && params.len() == 1 && params[0] is Some {
        Ok(TypeModel::Array(Box::new(params[0]->Some_0)))
    } else if name.basename() == map_basename() && n == 2 && params.len() == 2 && params[0] is Some
        && params[1] is Some {
        Ok(TypeModel::Mapping(Box::new(params[0]->Some_0), Box::new(params[1]->Some_0)))
    } else {
        Err(ErrorModel::ShapeMismatch(render(name)))
    }
}

/// Two equal types have that type as their common supertype; no other
/// conversion is defined among the builtin types.
pub open spec fn builtin_super_type(a: TypeModel, b: TypeModel) -> Result<Option<TypeModel>, ErrorModel> {
    if a == b {
        Ok(Some(a))
    } else {
        Ok(None)
    }
}

/// The provider of the builtin primitive kinds, arrays and maps. It holds
/// one shared instance of each primitive kind and hands out that instance
/// on every resolution.
pub struct BuiltinTypeProvider {
    builtins: Vec<TypeRef>,
}

impl BuiltinTypeProvider {
    #[verifier::type_invariant]
    closed spec fn inv(self) -> bool {
        &&& self.builtins@.len() == all_kinds().len()
        &&& forall|i: int|
            0 <= i < self.builtins@.len() ==> (#[trigger] self.builtins@[i]).model() == TypeModel::Primitive(
                all_kinds()[i],
            )
    }

    pub fn new() -> (r: BuiltinTypeProvider) {
        let kinds = BuiltinPrimitiveType::all();
        let mut builtins: Vec<TypeRef> = Vec::new();
        let mut i: usize = 0;
        while i < kinds.len()
            invariant
                kinds@ == all_kinds(),
                0 <= i <= kinds@.len(),
                builtins@.len() == i,
                forall|j: int|
                    0 <= j < i ==> (#[trigger] builtins@[j]).model() == TypeModel::Primitive(all_kinds()[j]),
            decreases kinds.len() - i,
        {
            let t = Type::Primitive(kinds[i]);
            proof {
                t.lemma_model();
            }
            builtins.push(Arc::new(t));
            i = i + 1;
        }
        BuiltinTypeProvider { builtins }
    }
}

impl BuiltinTypeProvider {
    /// The shared instance of the builtin kind that `name` names, when it
    /// has no parameters.
    fn find_builtin(&self, name: &TypeNameRef) -> (r: Option<TypeRef>)
        requires
            name@.parameters().len() == 0,
        ensures
            match kind_named(name@.basename()) {
                Some(k) => r is Some && r->Some_0.model() == TypeModel::Primitive(k),
                None => r is None,
            },
    {
        proof {
            use_type_invariant(self);
        }
        let ghost b = name@.basename();
        proof {
            (**name).lemma_view();
            crate::naming::lemma_params_model((**name).parameters_spec());
            assert(name@ =~= (NameModel::Name { basename: b, parameters: Seq::empty() }));
        }
        let mut i: usize = 0;
        while i < self.builtins.len()
            invariant
                self.builtins@.len() == all_kinds().len(),
                forall|j: int|
                    0 <= j < self.builtins@.len() ==> (#[trigger] self.builtins@[j]).model()
                        == TypeModel::Primitive(all_kinds()[j]),
                name@ == (NameModel::Name { basename: b, parameters: Seq::empty() }),
                0 <= i <= self.builtins@.len(),
                kind_from(b, 0) == kind_from(b, i as int),
            decreases self.builtins.len() - i,
        {
            let candidate = self.builtins[i].name();
            assert(candidate@ == all_kinds()[i as int].name_model());
            if *candidate == **name {
                return Some(self.builtins[i].clone());
            }
            i = i + 1;
        }
        None
    }
}

impl TypeProvider for BuiltinTypeProvider {
    open spec fn resolve_spec(&self, name: NameModel, params: Seq<Option<TypeModel>>) -> Result<
        TypeModel,
        ErrorModel,
    > {
        builtin_resolve(name, params)
    }

    open spec fn super_type_spec(&self, a: TypeModel, b: TypeModel) -> Result<Option<TypeModel>, ErrorModel> {
        builtin_super_type(a, b)
    }

    fn resolve(&self, name: &TypeNameRef, resolved: &[Option<TypeRef>]) -> (r: Result<TypeRef, TypeError>) {
        proof {
            use_type_invariant(self);
            (**name).lemma_view();
        }
        let parameters = name.parameters();
        if parameters.len() == 0 {
            if let Some(t) = self.find_builtin(name) {
                return Ok(t);
            }
        }
        let ghost ms = option_models(resolved@);
        assert(ms.len() == resolved@.len());
        proof {
            crate::naming::lemma_params_model(parameters@);
        }
        if name.has_basename("array") && parameters.len() == 1 {
            if let Some(element_type) = &resolved[0] {
                let t = Type::Array(ArrayType::new(element_type.clone()));
                proof {
                    t.lemma_model();
                    assert(ms[0] == Some(element_type.model()));
                }
                return Ok(Arc::new(t));
            }
            assert(ms[0] is None);
        }
        if name.has_basename("map") && parameters.len() == 2 {
            if let (Some(key_type), Some(value_type)) = (&resolved[0], &resolved[1]) {
                let t = Type::Mapping(MapType::new(key_type.clone(), value_type.clone()));
                proof {
                    t.lemma_model();
                    assert(ms[0] == Some(key_type.model()));
                    assert(ms[1] == Some(value_type.model()));
                }
                return Ok(Arc::new(t));
            }
            assert(ms[0] is None || ms[1] is None);
        }
        Err(TypeError::ShapeMismatch(String::from_str(name.name())))
    }

    fn common_super_type(&self, a: &TypeRef, b: &TypeRef) -> (r: Result<Option<TypeRef>, TypeError>) {
        if same_type(a, b) {
            Ok(Some(a.clone()))
        } else {
            Ok(None)
        }
    }
}

/// The basenames the builtin provider is registered for: every primitive
/// kind's, then `array` and `map`.
pub open spec fn builtin_basenames() -> Seq<Seq<char>> {
    all_kinds().map_values(|k: BuiltinPrimitiveType| k.basename_spec()).push(array_basename()).push(
        map_basename(),
    )
}

/// The builtin basenames are pairwise distinct.
pub proof fn lemma_builtin_basenames_distinct()
    ensures
        builtin_basenames().len() == 15,
        forall|i: int, j: int|
            0 <= i < j < 15 ==> #[trigger] builtin_basenames()[i] != #[trigger] builtin_basenames()[j],
{
    reveal_strlit("unknown");
    reveal_strlit("boolean");
    reveal_strlit("int8");
    reveal_strlit("int16");
    reveal_strlit("int32");
    reveal_strlit("int64");
    reveal_strlit("uint8");
    reveal_strlit("uint16");
    reveal_strlit("uint32");
    reveal_strlit("uint64");
    reveal_strlit("float16");
    reveal_strlit("float32");
    reveal_strlit("float64");
    reveal_strlit("array");
    reveal_strlit("map");
    let s = builtin_basenames();
    assert(s.len() == 15);
    assert forall|i: int, j: int| 0 <= i < j < 15 implies #[trigger] s[i] != #[trigger] s[j] by {
        assert(s[i].len() != s[j].len() || s[i][0] != s[j][0] || s[i][1] != s[j][1] || s[i][2] != s[j][2]
            || s[i][s[i].len() - 1] != s[j][s[j].len() - 1] || s[i][s[i].len() - 2] != s[j][s[j].len() - 2]
            || s[i][3] != s[j][3]);
    }
}

/// The position of the first builtin basename, from position `j` on, that
/// is taken in `m`; the number of builtin basenames when none is.
pub open spec fn first_taken<P>(m: Map<Seq<char>, P>, j: int) -> int
    decreases builtin_basenames().len() - j,
{
    if j < 0 || j >= builtin_basenames().len() {
        builtin_basenames().len() as int
    } else if m.contains_key(builtin_basenames()[j]) {
        j
    } else {
        first_taken(m, j + 1)
    }
}

proof fn lemma_first_taken_bounds<P>(m: Map<Seq<char>, P>, j: int)
    requires
        0 <= j <= builtin_basenames().len(),
    ensures
        j <= first_taken(m, j) <= builtin_basenames().len(),
        first_taken(m, j) < builtin_basenames().len() ==> m.contains_key(builtin_basenames()[first_taken(m, j)]),
        forall|i: int| j <= i < first_taken(m, j) ==> !m.contains_key(#[trigger] builtin_basenames()[i]),
    decreases builtin_basenames().len() - j,
{
    if j < builtin_basenames().len() && !m.contains_key(builtin_basenames()[j]) {
        lemma_first_taken_bounds(m, j + 1);
    }
}

impl BuiltinTypeProvider {
    /// Registers one shared builtin provider for every builtin basename, in
    /// order, stopping with an error at the first basename that is already
    /// taken. The basenames registered before that one stay registered.
    pub fn create_and_register<U: TypeProvider>(manager: &mut TypeManager<CatalogProvider<U>>) -> (r: Result<
        (),
        TypeError,
    >)
        requires
            old(manager).wf(),
        ensures
            final(manager).wf(),
            ({
                let names = builtin_basenames();
                let k = first_taken(old(manager)@, 0);
                &&& 0 <= k <= names.len()
                &&& (r is Err <==> k < names.len())
                &&& r is Err ==> r->Err_0@ == ErrorModel::DuplicateProviderRegistration(names[k])
                &&& final(manager)@.dom() == old(manager)@.dom().union(names.subrange(0, k).to_set())
                &&& forall|b: Seq<char>|
                    #[trigger] old(manager)@.contains_key(b) ==> final(manager)@[b] == old(manager)@[b]
                &&& forall|i: int, j: int|
                    0 <= i < k && 0 <= j < k ==> final(manager)@[#[trigger] names[i]] == final(manager)@[
                        #[trigger] names[j]
                    ]
                &&& forall|i: int| 0 <= i < k ==> final(manager)@[#[trigger] names[i]] is Builtin
            }),
    {
        let ghost names = builtin_basenames();
        let ghost start = manager@;
        proof {
            lemma_builtin_basenames_distinct();
            lemma_first_taken_bounds(start, 0);
        }
        let provider = Arc::new(CatalogProvider::<U>::Builtin(BuiltinTypeProvider::new()));
        let kinds = BuiltinPrimitiveType::all();
        let mut list: Vec<&'static str> = Vec::new();
        let mut k: usize = 0;
        while k < kinds.len()
            invariant
                kinds@ == all_kinds(),
                names == builtin_basenames(),
                0 <= k <= kinds@.len(),
                list@.len() == k,
                forall|j: int| 0 <= j < k ==> (#[trigger] list@[j])@ == names[j],
            decreases kinds.len() - k,
        {
            list.push(kinds[k].basename());
            k = k + 1;
        }
        list.push("array");
        list.push("map");
        let mut i: usize = 0;
        assert(names.subrange(0, 0).to_set() =~= Set::<Seq<char>>::empty());
        assert(manager@.dom() =~= start.dom().union(names.subrange(0, 0).to_set()));
        while i < list.len()
            invariant
                names == builtin_basenames(),
                names.len() == 15,
                forall|a: int, b: int| 0 <= a < b < 15 ==> #[trigger] names[a] != #[trigger] names[b],
                list@.len() == names.len(),
                forall|j: int| 0 <= j < names.len() ==> (#[trigger] list@[j])@ == names[j],
                0 <= i <= list@.len(),
                manager.wf(),
                start == old(manager)@,
                manager@.dom() == start.dom().union(names.subrange(0, i as int).to_set()),
                forall|b: Seq<char>| #[trigger] start.contains_key(b) ==> manager@[b] == start[b],
                forall|j: int| 0 <= j < i ==> !start.contains_key(#[trigger] names[j]),
                forall|j: int| 0 <= j < i ==> manager@[#[trigger] names[j]] == *provider,
                *provider is Builtin,
                first_taken(start, 0) == first_taken(start, i as int),
            decreases list.len() - i,
        {
            let ghost before = manager@;
            match manager.register_provider(list[i], &provider) {
                Err(e) => {
                    proof {
                        assert(before.contains_key(names[i as int]));
                        if !start.contains_key(names[i as int]) {
                            assert(names.subrange(0, i as int).to_set().contains(names[i as int]));
                            let j = choose|j: int| 0 <= j < i && names.subrange(0, i as int)[j] == names[i as int];
                            assert(names[j] == names[i as int]);
                        }
                        assert(first_taken(start, i as int) == i);
                        assert(e@ == ErrorModel::DuplicateProviderRegistration(names[i as int]));
                    }
                    return Err(e);
                },
                Ok(()) => {},
            }
            proof {
                assert(names.subrange(0, i + 1) =~= names.subrange(0, i as int).push(names[i as int]));
                names.subrange(0, i as int).lemma_push_to_set_commute(names[i as int]);
                assert(!start.contains_key(names[i as int]));
                assert(first_taken(start, i as int) == first_taken(start, i + 1));
            }
            i = i + 1;
        }
        proof {
            assert(first_taken(start, 15) == 15);
        }
        Ok(())
    }
}

proof fn lemma_first_taken_empty<P>(m: Map<Seq<char>, P>, j: int)
    requires
        m.dom() == Set::<Seq<char>>::empty(),
        0 <= j <= builtin_basenames().len(),
    ensures
        first_taken(m, j) == builtin_basenames().len(),
    decreases builtin_basenames().len() - j,
{
    if j < builtin_basenames().len() {
        lemma_first_taken_empty(m, j + 1);
    }
}

impl<U: TypeProvider> TypeManager<CatalogProvider<U>> {
    /// A registry that holds one shared builtin provider for every builtin
    /// basename; providers of the user's families can be registered next to
    /// it for other basenames.
    pub fn create_with_builtin_types() -> (r: TypeManager<CatalogProvider<U>>)
        ensures
            r.wf(),
            r@.dom() == builtin_basenames().to_set(),
            forall|i: int, j: int|
                0 <= i < builtin_basenames().len() && 0 <= j < builtin_basenames().len() ==> r@[
                    #[trigger] builtin_basenames()[i]
                ] == r@[#[trigger] builtin_basenames()[j]],
            forall|i: int| 0 <= i < builtin_basenames().len() ==> r@[#[trigger] builtin_basenames()[i]] is Builtin,
    {
        let mut manager = TypeManager::new();
        proof {
            lemma_first_taken_empty(manager@, 0);
            assert(builtin_basenames().subrange(0, builtin_basenames().len() as int) =~= builtin_basenames());
        }
        let registered = BuiltinTypeProvider::create_and_register::<U>(&mut manager);
        assert(manager@.dom() =~= builtin_basenames().to_set());
        manager
    }
}

} // verus!

//! Properties that relate several operations of the catalog.

use crate::manager::CatalogProvider;
use crate::builtin::{ builtin_basenames, kind_from, kind_named, lemma_builtin_basenames_distinct};
use crate::error::ErrorModel;
use crate::manager::{TypeManager, TypeProvider, registration};
use crate::naming::{NameModel, TypeName, TypeParameter, param_model, params_model, render, lemma_params_model_ext};
use crate::types::{TypeModel, all_kinds, array_basename, map_basename};
use vstd::prelude::*;

verus! {

/// Two names built from the same basename and structurally equal parameter
/// lists are equal, and so is their canonical text.
pub proof fn lemma_structural_equality(
    basename: Seq<char>,
    pa: Seq<TypeParameter>,
    pb: Seq<TypeParameter>,
    x: TypeName,
    y: TypeName,
)
    requires
        pa.len() == pb.len(),
        forall|i: int| 0 <= i < pa.len() ==> param_model(#[trigger] pa[i]) == param_model(pb[i]),
        x@ == (NameModel::Name { basename: basename, parameters: params_model(pa) }),
        y@ == (NameModel::Name { basename: basename, parameters: params_model(pb) }),
    ensures
        x@ == y@,
        render(x@) == render(y@),
{
    lemma_params_model_ext(pa, pb);
}

/// Registering a provider for a basename that a first registration left in
/// place fails with a duplicate-registration error and leaves the registry
/// as it was, whatever the outcome of the first registration.
pub proof fn lemma_registration_exclusive<P>(
    m0: Map<Seq<char>, P>,
    m1: Map<Seq<char>, P>,
    m2: Map<Seq<char>, P>,
    b: Seq<char>,
    p: P,
    q: P,
    r1: Result<(), ErrorModel>,
    r2: Result<(), ErrorModel>,
)
    requires
        registration(m0, b, p, m1, r1),
        registration(m1, b, q, m2, r2),
    ensures
        r2 == Err::<(), ErrorModel>(ErrorModel::DuplicateProviderRegistration(b)),
        m2 == m1,
{
}

/// Registrations for two different free basenames both succeed, and the
/// registry they leave does not depend on their order.
pub proof fn lemma_registration_independent<P>(
    m0: Map<Seq<char>, P>,
    b1: Seq<char>,
    b2: Seq<char>,
    pa: P,
    pb: P,
    m1: Map<Seq<char>, P>,
    m2: Map<Seq<char>, P>,
    r1: Result<(), ErrorModel>,
    r2: Result<(), ErrorModel>,
    n1: Map<Seq<char>, P>,
    n2: Map<Seq<char>, P>,
    s1: Result<(), ErrorModel>,
    s2: Result<(), ErrorModel>,
)
    requires
        b1 != b2,
        !m0.contains_key(b1),
        !m0.contains_key(b2),
        registration(m0, b1, pa, m1, r1),
        registration(m1, b2, pb, m2, r2),
        registration(m0, b2, pb, n1, s1),
        registration(n1, b1, pa, n2, s2),
    ensures
        r1 is Ok && r2 is Ok && s1 is Ok && s2 is Ok,
        m2 == n2,
        m2 == m0.insert(b1, pa).insert(b2, pb),
{
    assert(m2 =~= n2);
}

/// Resolving a name whose basename has no provider fails with an
/// unknown-basename error naming that basename.
pub proof fn lemma_unknown_basename<P: TypeProvider>(m: TypeManager<P>, t: NameModel)
    requires
        !m@.contains_key(t.basename()),
    ensures
        m.resolve_spec(t) == Err::<TypeModel, ErrorModel>(ErrorModel::UnknownBasename(t.basename())),
{
}

/// A basename that names a builtin kind is the basename of one of them.
proof fn lemma_kind_from(b: Seq<char>, i: int)
    requires
        0 <= i,
        kind_from(b, i) is Some,
    ensures
        exists|j: int| i <= j < all_kinds().len() && (#[trigger] all_kinds()[j]).basename_spec() == b,
    decreases all_kinds().len() - i,
{
    if all_kinds()[i].basename_spec() != b {
        lemma_kind_from(b, i + 1);
    }
}

/// With the builtin provider registered for `array`, an `array` name with no
/// parameters or with two fails with a shape mismatch naming it, once its
/// nested parameters resolve.
pub proof fn lemma_array_shape_mismatch<U: TypeProvider>(m: TypeManager<CatalogProvider<U>>, t: NameModel)
    requires
        m@.contains_key(array_basename()),
        m@[array_basename()] is Builtin,
        t.basename() == array_basename(),
        t.parameters().len() == 0 || t.parameters().len() == 2,
        m.resolve_params_spec(t.parameters(), t.parameters().len() as int) is Ok,
    ensures
        m.resolve_spec(t) == Err::<TypeModel, ErrorModel>(ErrorModel::ShapeMismatch(render(t))),
{
    lemma_builtin_basenames_distinct();
    assert(builtin_basenames()[13] == array_basename());
    assert(builtin_basenames()[14] == map_basename());
    assert(array_basename() != map_basename());
    if kind_named(array_basename()) is Some {
        lemma_kind_from(array_basename(), 0);
        let j = choose|j: int| 0 <= j < all_kinds().len() && (#[trigger] all_kinds()[j]).basename_spec() == array_basename();
        assert(builtin_basenames()[j] == all_kinds()[j].basename_spec());
    }
    assert(kind_named(array_basename()) is None);
    let rs = m.resolve_params_spec(t.parameters(), t.parameters().len() as int)->Ok_0;
    assert(m@[t.basename()].resolve_spec(t, rs) == Err::<TypeModel, ErrorModel>(ErrorModel::ShapeMismatch(render(t))));
}

} // verus!

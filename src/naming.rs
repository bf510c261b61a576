//! Canonical type names: a basename and an ordered list of parameters,
//! each a nested name or a 128-bit integer, with the canonical text
//! `basename(a, b, ...)` computed once at construction.

use std::sync::Arc;
use vstd::prelude::*;

verus! {

/// A parameter of a type name: a nested type name or an integer literal.
#[derive(Debug, Hash)]
pub enum TypeParameter {
    Type(Arc<TypeName>),
    Number(i128),
}

/// A canonical type identifier: a basename and an ordered list of parameters.
/// The canonical text is computed once, when the name is built.
#[derive(Debug, Hash)]
pub struct TypeName {
    basename: String,
    name: String,
    parameters: Vec<TypeParameter>,
}

pub type TypeNameRef = Arc<TypeName>;

/// The structure of a type name, as a mathematical value.
pub enum NameModel {
    Name { basename: Seq<char>, parameters: Seq<ParamModel> },
}

/// The structure of a type parameter, as a mathematical value.
pub enum ParamModel {
    Type(NameModel),
    Number(int),
}

impl NameModel {
    pub open spec fn basename(self) -> Seq<char> {
        match self {
            NameModel::Name { basename, .. } => basename,
        }
    }

    pub open spec fn parameters(self) -> Seq<ParamModel> {
        match self {
            NameModel::Name { parameters, .. } => parameters,
        }
    }
}

/// The character of a decimal digit.
pub open spec fn digit_char(d: int) -> char {
    if d == 0 {
        '0'
    } else if d == 1 {
        '1'
    } else if d == 2 {
        '2'
    } else if d == 3 {
        '3'
    } else if d == 4 {
        '4'
    } else if d == 5 {
        '5'
    } else if d == 6 {
        '6'
    } else if d == 7 {
        '7'
    } else if d == 8 {
        '8'
    } else {
        '9'
    }
}

/// Base-10 digits of a natural number, most significant first, no leading zeros.
pub open spec fn digits(n: nat) -> Seq<char>
    decreases n,
{
    if n < 10 {
        seq![digit_char(n as int)]
    } else {
        digits(n / 10) + seq![digit_char((n % 10) as int)]
    }
}

/// Base-10 text of an integer, with a leading `-` when negative.
pub open spec fn decimal(n: int) -> Seq<char> {
    if n < 0 {
        seq!['-'] + digits((-n) as nat)
    } else {
        digits(n as nat)
    }
}

/// Canonical text of a type name: the basename alone, or
/// `basename(a, b, ...)` with the parameters rendered in order.
pub open spec fn render(m: NameModel) -> Seq<char>
    decreases m, 0int,
{
    match m {
        NameModel::Name { basename, parameters } => {
            if parameters.len() == 0 {
                basename
            } else {
                basename + seq!['('] + render_params(parameters, parameters.len() as int) + seq![')']
            }
        },
    }
}

/// The first `n` parameters rendered and joined by `", "`.
pub open spec fn render_params(ps: Seq<ParamModel>, n: int) -> Seq<char>
    decreases ps, n,
{
    if n <= 0 || n > ps.len() {
        Seq::empty()
    } else {
        let last = match ps[n - 1] {
            ParamModel::Type(t) => render(t),
            ParamModel::Number(k) => decimal(k),
        };
        if n == 1 {
            last
        } else {
            render_params(ps, n - 1) + seq![',', ' '] + last
        }
    }
}

/// The structure of a type name value.
pub closed spec fn model_of(t: TypeName) -> NameModel
    decreases t, 0int,
{
    NameModel::Name {
        basename: t.basename@,
        parameters: params_model_upto(t.parameters@, t.parameters@.len() as int),
    }
}

/// The structure of a parameter value.
pub open spec fn param_model(p: TypeParameter) -> ParamModel
    decreases p, 0int,
{
    match p {
        TypeParameter::Type(a) => ParamModel::Type(model_of(*a)),
        TypeParameter::Number(k) => ParamModel::Number(k as int),
    }
}

/// The structure of the first `n` parameters of a list.
pub open spec fn params_model_upto(ps: Seq<TypeParameter>, n: int) -> Seq<ParamModel>
    decreases ps, n,
{
    if n <= 0 || n > ps.len() {
        Seq::empty()
    } else {
        params_model_upto(ps, n - 1).push(param_model(ps[n - 1]))
    }
}

/// The structure of a list of parameters.
pub open spec fn params_model(ps: Seq<TypeParameter>) -> Seq<ParamModel> {
    params_model_upto(ps, ps.len() as int)
}

impl View for TypeName {
    type V = NameModel;

    open spec fn view(&self) -> NameModel {
        model_of(*self)
    }
}

pub proof fn lemma_params_model_upto(ps: Seq<TypeParameter>, n: int)
    requires
        0 <= n <= ps.len(),
    ensures
        params_model_upto(ps, n).len() == n,
        forall|i: int| 0 <= i < n ==> #[trigger] params_model_upto(ps, n)[i] == param_model(ps[i]),
    decreases n,
{
    if n > 0 {
        lemma_params_model_upto(ps, n - 1);
    }
}

pub proof fn lemma_params_model(ps: Seq<TypeParameter>)
    ensures
        params_model(ps).len() == ps.len(),
        forall|i: int| 0 <= i < ps.len() ==> #[trigger] params_model(ps)[i] == param_model(ps[i]),
{
    lemma_params_model_upto(ps, ps.len() as int);
}

/// Appending a parameter appends its structure.
pub proof fn lemma_params_model_push(ps: Seq<TypeParameter>, p: TypeParameter)
    ensures
        params_model(ps.push(p)) == params_model(ps).push(param_model(p)),
{
    lemma_params_model(ps);
    lemma_params_model(ps.push(p));
    assert(params_model(ps.push(p)) =~= params_model(ps).push(param_model(p)));
}

/// Two parameter lists with the same length and the same structure at each
/// position have the same structure.
pub proof fn lemma_params_model_ext(a: Seq<TypeParameter>, b: Seq<TypeParameter>)
    requires
        a.len() == b.len(),
        forall|i: int| 0 <= i < a.len() ==> param_model(#[trigger] a[i]) == param_model(b[i]),
    ensures
        params_model(a) == params_model(b),
{
    lemma_params_model(a);
    lemma_params_model(b);
    assert(params_model(a) =~= params_model(b));
}

impl TypeName {
    #[verifier::type_invariant]
    closed spec fn inv(self) -> bool {
        self.name@ == render(model_of(self))
    }

    /// The structure of `self` is its basename and its parameters' structure.
    pub broadcast proof fn lemma_view(&self)
        ensures
            #[trigger] self@ == (NameModel::Name {
                basename: self.basename_spec(),
                parameters: params_model(self.parameters_spec()),
            }),
    {
    }

    /// A nested name is smaller than the name that holds it.
    pub proof fn lemma_parameter_decreases(&self, i: int)
        requires
            0 <= i < self.parameters_spec().len(),
            self.parameters_spec()[i] is Type,
        ensures
            decreases_to!(*self => *self.parameters_spec()[i]->Type_0),
    {
        assert(decreases_to!(*self => self.parameters));
        assert(decreases_to!(self.parameters => self.parameters@[i]));
    }

    pub closed spec fn basename_spec(&self) -> Seq<char> {
        self.basename@
    }

    pub closed spec fn parameters_spec(&self) -> Seq<TypeParameter> {
        self.parameters@
    }

    pub fn basename(&self) -> (r: &str)
        ensures
            r@ == self.basename_spec(),
            r@ == self@.basename(),
    {
        self.basename.as_str()
    }

    pub fn has_basename(&self, b: &str) -> (r: bool)
        ensures
            r == (self@.basename() == b@),
    {
        self.basename == String::from_str(b)
    }

    /// The canonical text of this name.
    pub fn name(&self) -> (r: &str)
        ensures
            r@ == render(self@),
    {
        proof {
            use_type_invariant(self);
        }
        self.name.as_str()
    }

    pub fn parameters(&self) -> (r: &[TypeParameter])
        ensures
            r@ == self.parameters_spec(),
            params_model(r@) == self@.parameters(),
    {
        self.parameters.as_slice()
    }

    /// The canonical text of this name, as an owned string.
    pub fn to_string(&self) -> (r: String)
        ensures
            r@ == render(self@),
    {
        proof {
            use_type_invariant(self);
        }
        self.name.clone()
    }

    /// Builds a name and its canonical text. Any basename is accepted; see
    /// `is_valid` for the names whose text reads back unambiguously.
    pub fn new(basename: &str, parameters: Vec<TypeParameter>) -> (r: TypeName)
        ensures
            r.basename_spec() == basename@,
            r.parameters_spec() == parameters@,
            r@ == (NameModel::Name { basename: basename@, parameters: params_model(parameters@) }),
    {
        let ghost ms = params_model(parameters@);
        proof {
            lemma_params_model(parameters@);
            reveal_strlit("(");
            reveal_strlit(", ");
            reveal_strlit(")");
            assert("("@ =~= seq!['(']);
            assert(", "@ =~= seq![',', ' ']);
            assert(")"@ =~= seq![')']);
        }
        let mut name = String::from_str(basename);
        if parameters.len() > 0 {
            name.append("(");
            let mut i: usize = 0;
            while i < parameters.len()
                invariant
                    0 <= i <= parameters.len(),
                    ms == params_model(parameters@),
                    ", "@ == seq![',', ' '],
                    ms.len() == parameters@.len(),
                    forall|j: int| 0 <= j < ms.len() ==> #[trigger] ms[j] == param_model(parameters@[j]),
                    name@ == basename@ + seq!['('] + render_params(ms, i as int),
                decreases parameters.len() - i,
            {
                let ghost before = name@;
                if i > 0 {
                    name.append(", ");
                }
                let ghost sep = name@;
                let ghost last = match ms[i as int] {
                    ParamModel::Type(t) => render(t),
                    ParamModel::Number(k) => decimal(k),
                };
                match &parameters[i] {
                    TypeParameter::Type(t) => {
                        proof {
                            use_type_invariant(&**t);
                            assert(ms[i as int] == ParamModel::Type(model_of(**t)));
                        }
                        name.append(t.name.as_str());
                    },
                    TypeParameter::Number(k) => {
                        push_decimal(&mut name, *k);
                    },
                }
                assert(name@ == sep + last);
                i = i + 1;
                if i == 1 {
                    assert(render_params(ms, i as int) == last);
                } else {
                    assert(render_params(ms, i as int) == render_params(ms, i - 1) + seq![',', ' '] + last);
                }
                assert(name@ =~= basename@ + seq!['('] + render_params(ms, i as int));
            }
            name.append(")");
            assert(name@ =~= render(NameModel::Name { basename: basename@, parameters: ms }));
        }
        let r = TypeName { basename: String::from_str(basename), name, parameters };
        assert(r@ == (NameModel::Name { basename: basename@, parameters: ms }));
        r
    }

    pub fn from_basename(basename: &str) -> (r: TypeName)
        ensures
            r.basename_spec() == basename@,
            r.parameters_spec().len() == 0,
            r@ == (NameModel::Name { basename: basename@, parameters: Seq::empty() }),
    {
        TypeName::new(basename, Vec::new())
    }
}

/// Structural comparison: same basename and pairwise equal parameters.
fn names_equal(a: &TypeName, b: &TypeName) -> (r: bool)
    ensures
        r == (a@ == b@),
    decreases a,
{
    proof {
        lemma_params_model(a.parameters@);
        lemma_params_model(b.parameters@);
    }
    if a.basename != b.basename {
        assert(a@.basename() != b@.basename());
        return false;
    }
    if a.parameters.len() != b.parameters.len() {
        assert(a@.parameters().len() != b@.parameters().len());
        return false;
    }
    let mut i: usize = 0;
    while i < a.parameters.len()
        invariant
            a.parameters@.len() == b.parameters@.len(),
            0 <= i <= a.parameters@.len(),
            forall|j: int| 0 <= j < i ==> param_model(#[trigger] a.parameters@[j]) == param_model(b.parameters@[j]),
        decreases a.parameters.len() - i,
    {
        let same = match (&a.parameters[i], &b.parameters[i]) {
            (TypeParameter::Type(x), TypeParameter::Type(y)) => {
                proof {
                    assert(decreases_to!(*a => a.parameters));
                    assert(decreases_to!(a.parameters => a.parameters@[i as int]));
                }
                names_equal(x, y)
            },
            (TypeParameter::Number(x), TypeParameter::Number(y)) => *x == *y,
            _ => false,
        };
        if !same {
            proof {
                lemma_params_model(a.parameters@);
                lemma_params_model(b.parameters@);
                assert(a@.parameters()[i as int] != b@.parameters()[i as int]);
            }
            return false;
        }
        i = i + 1;
    }
    proof {
        lemma_params_model_ext(a.parameters@, b.parameters@);
    }
    true
}

impl Clone for TypeParameter {
    fn clone(&self) -> (r: TypeParameter)
        ensures
            r == *self,
    {
        match self {
            TypeParameter::Type(t) => TypeParameter::Type(t.clone()),
            TypeParameter::Number(k) => TypeParameter::Number(*k),
        }
    }
}

impl Clone for TypeName {
    fn clone(&self) -> (r: TypeName)
        ensures
            r@ == self@,
    {
        proof {
            use_type_invariant(self);
        }
        let mut parameters: Vec<TypeParameter> = Vec::new();
        let mut i: usize = 0;
        while i < self.parameters.len()
            invariant
                0 <= i <= self.parameters@.len(),
                parameters@ == self.parameters@.subrange(0, i as int),
            decreases self.parameters.len() - i,
        {
            parameters.push(self.parameters[i].clone());
            i = i + 1;
            assert(parameters@ =~= self.parameters@.subrange(0, i as int));
        }
        assert(parameters@ =~= self.parameters@);
        TypeName { basename: self.basename.clone(), name: self.name.clone(), parameters }
    }
}

impl PartialEq for TypeName {
    fn eq(&self, other: &TypeName) -> (r: bool)
        ensures
            r == (self@ == other@),
    {
        names_equal(self, other)
    }
}

impl vstd::std_specs::cmp::PartialEqSpecImpl for TypeName {
    open spec fn obeys_eq_spec() -> bool {
        true
    }

    open spec fn eq_spec(&self, other: &TypeName) -> bool {
        self@ == other@
    }
}

impl Eq for TypeName {
}

impl PartialEq for TypeParameter {
    fn eq(&self, other: &TypeParameter) -> (r: bool)
        ensures
            r == (param_model(*self) == param_model(*other)),
    {
        match (self, other) {
            (TypeParameter::Type(x), TypeParameter::Type(y)) => names_equal(x, y),
            (TypeParameter::Number(x), TypeParameter::Number(y)) => *x == *y,
            _ => false,
        }
    }
}

impl vstd::std_specs::cmp::PartialEqSpecImpl for TypeParameter {
    open spec fn obeys_eq_spec() -> bool {
        true
    }

    open spec fn eq_spec(&self, other: &TypeParameter) -> bool {
        param_model(*self) == param_model(*other)
    }
}

impl Eq for TypeParameter {
}

/// The text of a single decimal digit.
fn digit_str(d: u128) -> (r: &'static str)
    requires
        d < 10,
    ensures
        r@ == seq![digit_char(d as int)],
{
    proof {
        reveal_strlit("0");
        reveal_strlit("1");
        reveal_strlit("2");
        reveal_strlit("3");
        reveal_strlit("4");
        reveal_strlit("5");
        reveal_strlit("6");
        reveal_strlit("7");
        reveal_strlit("8");
        reveal_strlit("9");
    }
    if d == 0 {
        "0"
    } else if d == 1 {
        "1"
    } else if d == 2 {
        "2"
    } else if d == 3 {
        "3"
    } else if d == 4 {
        "4"
    } else if d == 5 {
        "5"
    } else if d == 6 {
        "6"
    } else if d == 7 {
        "7"
    } else if d == 8 {
        "8"
    } else {
        "9"
    }
}

fn push_digits(s: &mut String, n: u128)
    ensures
        final(s)@ == old(s)@ + digits(n as nat),
    decreases n,
{
    if n >= 10 {
        push_digits(s, n / 10);
    }
    s.append(digit_str(n % 10));
    assert(final(s)@ =~= old(s)@ + digits(n as nat));
}

fn push_decimal(s: &mut String, k: i128)
    ensures
        final(s)@ == old(s)@ + decimal(k as int),
{
    if k < 0 {
        s.append("-");
        proof {
            reveal_strlit("-");
        }
        let m: u128 = ((-(k + 1)) as u128) + 1;
        push_digits(s, m);
    } else {
        push_digits(s, k as u128);
    }
    assert(final(s)@ =~= old(s)@ + decimal(k as int));
}

} // verus!

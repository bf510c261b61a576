//! Reading canonical text back into type names.
//!
//! A basename is valid when it is not empty and holds none of `(`, `)`, `,`
//! and space. A nested name's basename must in addition not start with a
//! digit or `-`, which would make it read as a number. Names may be built
//! with any basename, but only valid names have a canonical text that reads
//! back as themselves; `parse` accepts exactly the canonical texts of valid
//! names.

use crate::error::{ErrorModel, TypeError};
use crate::naming::{
    NameModel, ParamModel, TypeName, TypeParameter, decimal, digit_char, digits, lemma_params_model, param_model,
    params_model, render, render_params,
};
use std::sync::Arc;
use vstd::prelude::*;

verus! {

/// What a number parameter starts with.
pub open spec fn is_number_start(c: char) -> bool {
    c == '-' || is_digit(c)
}

pub open spec fn is_digit(c: char) -> bool {
    '0' <= c && c <= '9'
}

/// What a basename is made of: anything but the delimiters of the syntax.
pub open spec fn is_name_char(c: char) -> bool {
    c != '(' && c != ')' && c != ',' && c != ' '
}

/// A basename that can be read back: not empty, without delimiters.
pub open spec fn valid_basename(b: Seq<char>) -> bool {
    &&& b.len() > 0
    &&& forall|i: int| 0 <= i < b.len() ==> is_name_char(#[trigger] b[i])
}

/// A name whose basename and nested names are all valid, whose nested
/// basenames do not start like a number, and whose numbers fit in 128 bits.
pub open spec fn valid_name(m: NameModel) -> bool
    decreases m, 0int,
{
    match m {
        NameModel::Name { basename, parameters } => valid_basename(basename) && valid_params(
            parameters,
            parameters.len() as int,
        ),
    }
}

/// The first `n` parameters are valid.
pub open spec fn valid_params(ps: Seq<ParamModel>, n: int) -> bool
    decreases ps, n,
{
    if n <= 0 || n > ps.len() {
        true
    } else {
        valid_params(ps, n - 1) && match ps[n - 1] {
            ParamModel::Type(t) => valid_name(t) && !is_number_start(t.basename()[0]),
            ParamModel::Number(k) => i128::MIN <= k <= i128::MAX,
        }
    }
}

/// The end of the run of name characters that starts at `j`.
pub open spec fn scan_name(cs: Seq<char>, j: int) -> int
    decreases cs.len() - j,
{
    if 0 <= j < cs.len() && is_name_char(cs[j]) {
        scan_name(cs, j + 1)
    } else {
        j
    }
}

/// The end of the run of digits that starts at `j`.
pub open spec fn scan_digits(cs: Seq<char>, j: int) -> int
    decreases cs.len() - j,
{
    if 0 <= j < cs.len() && is_digit(cs[j]) {
        scan_digits(cs, j + 1)
    } else {
        j
    }
}

/// One more than the largest magnitude a 128-bit integer can have.
pub open spec fn magnitude_cap() -> int {
    0x8000_0000_0000_0000_0000_0000_0000_0001
}

/// The value of a run of digits, capped at `magnitude_cap()`.
pub open spec fn digits_value(s: Seq<char>) -> int
    decreases s.len(),
{
    if s.len() == 0 {
        0
    } else {
        let v = digits_value(s.drop_last()) * 10 + (s.last() as int - '0' as int);
        if v > magnitude_cap() {
            magnitude_cap()
        } else {
            v
        }
    }
}

/// A number parameter at `q`: an optional `-`, then digits without a
/// leading zero (`0` alone excepted, `-0` refused), in 128-bit range.
pub open spec fn parse_number_spec(cs: Seq<char>, q: int) -> Option<(int, int)> {
    let neg = 0 <= q < cs.len() && cs[q] == '-';
    let d0 = if neg {
        q + 1
    } else {
        q
    };
    let e = scan_digits(cs, d0);
    if e == d0 {
        None
    } else if cs[d0] == '0' && (e > d0 + 1 || neg) {
        None
    } else {
        let v = digits_value(cs.subrange(d0, e));
        let k = if neg {
            -v
        } else {
            v
        };
        if i128::MIN <= k <= i128::MAX {
            Some((k, e))
        } else {
            None
        }
    }
}

/// The name that starts at `pos`, and where it ends.
pub open spec fn parse_name_spec(cs: Seq<char>, pos: int) -> Option<(NameModel, int)>
    decreases cs.len() - pos, 0int,
{
    if pos < 0 || pos >= cs.len() || !is_name_char(cs[pos]) {
        None
    } else {
        let e = scan_name(cs, pos);
        let basename = cs.subrange(pos, e);
        if pos < e < cs.len() && cs[e] == '(' {
            match parse_params_spec(cs, e + 1, Seq::empty()) {
                None => None,
                Some((ps, q)) => Some((NameModel::Name { basename, parameters: ps }, q)),
            }
        } else {
            Some((NameModel::Name { basename, parameters: Seq::empty() }, e))
        }
    }
}

/// One parameter at `q`: a number when it starts with `-` or a digit, else
/// a nested name.
pub open spec fn parse_param_spec(cs: Seq<char>, q: int) -> Option<(ParamModel, int)>
    decreases cs.len() - q, 1int,
{
    if q < 0 || q >= cs.len() {
        None
    } else if cs[q] == '-' || is_digit(cs[q]) {
        match parse_number_spec(cs, q) {
            None => None,
            Some((k, e)) => Some((ParamModel::Number(k), e)),
        }
    } else {
        match parse_name_spec(cs, q) {
            None => None,
            Some((t, e)) => Some((ParamModel::Type(t), e)),
        }
    }
}

/// The parameters from `q` up to the closing parenthesis, appended to
/// `acc`, and the position after that parenthesis.
pub open spec fn parse_params_spec(cs: Seq<char>, q: int, acc: Seq<ParamModel>) -> Option<
    (Seq<ParamModel>, int),
>
    decreases cs.len() - q, 2int,
{
    if q < 0 || q >= cs.len() {
        None
    } else {
        match parse_param_spec(cs, q) {
            None => None,
            Some((p, e)) => {
                if e <= q || e >= cs.len() {
                    None
                } else if cs[e] == ')' {
                    Some((acc.push(p), e + 1))
                } else if e + 1 < cs.len() && cs[e] == ',' && cs[e + 1] == ' ' {
                    parse_params_spec(cs, e + 2, acc.push(p))
                } else {
                    None
                }
            },
        }
    }
}

/// The name that a whole text spells, if it spells one.
pub open spec fn parse_text(cs: Seq<char>) -> Option<NameModel> {
    match parse_name_spec(cs, 0) {
        Some((m, e)) => if e == cs.len() {
            Some(m)
        } else {
            None
        },
        None => None,
    }
}

/// The text of one parameter.
pub open spec fn param_text(p: ParamModel) -> Seq<char> {
    match p {
        ParamModel::Type(t) => render(t),
        ParamModel::Number(k) => decimal(k),
    }
}

/// What may follow a name or a number inside a text: its end, a comma or a
/// closing parenthesis.
pub open spec fn is_follow(cs: Seq<char>, j: int) -> bool {
    j == cs.len() || (0 <= j < cs.len() && (cs[j] == ',' || cs[j] == ')'))
}

proof fn lemma_valid_params(ps: Seq<ParamModel>, n: int, i: int)
    requires
        0 <= i < n <= ps.len(),
        valid_params(ps, n),
    ensures
        match ps[i] {
            ParamModel::Type(t) => valid_name(t) && !is_number_start(t.basename()[0]),
            ParamModel::Number(k) => i128::MIN <= k <= i128::MAX,
        },
    decreases n,
{
    if i < n - 1 {
        lemma_valid_params(ps, n - 1, i);
    }
}

proof fn lemma_digits_chars(n: nat)
    ensures
        digits(n).len() >= 1,
        forall|i: int| 0 <= i < digits(n).len() ==> is_digit(#[trigger] digits(n)[i]),
        n < 10 ==> digits(n).len() == 1,
        n >= 1 ==> digits(n)[0] != '0',
    decreases n,
{
    if n >= 10 {
        lemma_digits_chars(n / 10);
        assert forall|i: int| 0 <= i < digits(n).len() implies is_digit(#[trigger] digits(n)[i]) by {
            if i < digits(n / 10).len() {
                assert(digits(n)[i] == digits(n / 10)[i]);
            }
        }
    }
}

proof fn lemma_digits_value(n: nat)
    requires
        n < magnitude_cap(),
    ensures
        digits_value(digits(n)) == n,
    decreases n,
{
    let d = (n % 10) as int;
    assert(digit_char(d) as int - '0' as int == d);
    if n >= 10 {
        lemma_digits_value(n / 10);
        assert(digits(n).drop_last() =~= digits(n / 10));
        assert(digits(n).last() == digit_char(d));
        assert((n / 10) as int * 10 + d == n);
        assert(digits_value(digits(n)) == digits_value(digits(n).drop_last()) * 10 + d);
    } else {
        assert(digits(n).drop_last() =~= Seq::<char>::empty());
        assert(digits(n).last() == digit_char(d));
        assert(digits_value(digits(n).drop_last()) == 0);
        assert(d == n);
    }
}

proof fn lemma_scan_name(cs: Seq<char>, j: int, end: int)
    requires
        0 <= j <= end <= cs.len(),
        forall|i: int| j <= i < end ==> is_name_char(#[trigger] cs[i]),
        end == cs.len() || !is_name_char(cs[end]),
    ensures
        scan_name(cs, j) == end,
    decreases end - j,
{
    if j < end {
        lemma_scan_name(cs, j + 1, end);
    }
}

proof fn lemma_scan_digits_to(cs: Seq<char>, j: int, end: int)
    requires
        0 <= j <= end <= cs.len(),
        forall|i: int| j <= i < end ==> is_digit(#[trigger] cs[i]),
        end == cs.len() || !is_digit(cs[end]),
    ensures
        scan_digits(cs, j) == end,
    decreases end - j,
{
    if j < end {
        lemma_scan_digits_to(cs, j + 1, end);
    }
}

proof fn lemma_parse_number(v: int, cs: Seq<char>, q: int)
    requires
        i128::MIN <= v <= i128::MAX,
        0 <= q,
        q + decimal(v).len() <= cs.len(),
        cs.subrange(q, q + decimal(v).len()) == decimal(v),
        is_follow(cs, q + decimal(v).len()),
    ensures
        parse_number_spec(cs, q) == Some((v, q + decimal(v).len())),
{
    let neg = v < 0;
    let n: nat = if neg {
        (-v) as nat
    } else {
        v as nat
    };
    let d0 = if neg {
        q + 1
    } else {
        q
    };
    lemma_digits_chars(n);
    lemma_digits_value(n);
    let ds = digits(n);
    let end = q + decimal(v).len();
    assert(d0 + ds.len() == end);
    assert forall|i: int| d0 <= i < end implies is_digit(#[trigger] cs[i]) by {
        assert(cs[i] == cs.subrange(q, end)[i - q]);
        assert(ds[i - d0] == decimal(v)[i - q]);
    }
    assert(cs[q] == cs.subrange(q, end)[0]);
    assert(cs[d0] == ds[0]) by {
        assert(cs[d0] == cs.subrange(q, end)[d0 - q]);
    }
    assert(is_digit(ds[0]));
    assert((0 <= q < cs.len() && cs[q] == '-') == neg);
    lemma_scan_digits_to(cs, d0, end);
    assert(cs.subrange(d0, end) =~= ds) by {
        assert forall|i: int| 0 <= i < ds.len() implies cs.subrange(d0, end)[i] == ds[i] by {
            assert(cs.subrange(q, end)[d0 - q + i] == decimal(v)[d0 - q + i]);
        }
    }
}

/// Text positions of the parameters: the `m`-th parameter starts after the
/// first `m` and their separators.
proof fn lemma_render_params_prefix(ps: Seq<ParamModel>, m: int, n: int)
    requires
        1 <= m <= n <= ps.len(),
    ensures
        render_params(ps, n).len() >= render_params(ps, m).len(),
        render_params(ps, n).subrange(0, render_params(ps, m).len() as int) == render_params(ps, m),
        m < n ==> render_params(ps, n).len() >= render_params(ps, m).len() + 2,
        m < n ==> render_params(ps, n)[render_params(ps, m).len() as int] == ',',
        m < n ==> render_params(ps, n)[render_params(ps, m).len() + 1int] == ' ',
    decreases n - m,
{
    if m < n {
        lemma_render_params_prefix(ps, m, n - 1);
        let a = render_params(ps, n - 1);
        let b = render_params(ps, m);
        assert(render_params(ps, n) == a + seq![',', ' '] + param_text(ps[n - 1]));
        assert(render_params(ps, n).subrange(0, b.len() as int) =~= a.subrange(0, b.len() as int));
        if m < n - 1 {
            assert(render_params(ps, n)[b.len() as int] == a[b.len() as int]);
            assert(render_params(ps, n)[b.len() + 1int] == a[b.len() + 1int]);
        } else {
            assert(a.subrange(0, b.len() as int) =~= a);
        }
    } else {
        assert(render_params(ps, n).subrange(0, render_params(ps, m).len() as int) =~= render_params(ps, m));
    }
}

/// The text of a valid name starts with a name character, and that of a
/// number with a digit or `-`; neither is empty.
proof fn lemma_param_text_start(p: ParamModel)
    requires
        match p {
            ParamModel::Type(t) => valid_name(t) && !is_number_start(t.basename()[0]),
            ParamModel::Number(_) => true,
        },
    ensures
        param_text(p).len() >= 1,
        (param_text(p)[0] == '-' || is_digit(param_text(p)[0])) <==> p is Number,
{
    match p {
        ParamModel::Type(t) => {
            let b = t.basename();
            assert(render(t)[0] == b[0]);
        },
        ParamModel::Number(k) => {
            let n: nat = if k < 0 {
                (-k) as nat
            } else {
                k as nat
            };
            lemma_digits_chars(n);
        },
    }
}

/// A valid name written at `pos` and followed by the end, a comma or a
/// closing parenthesis is read back as itself.
proof fn lemma_parse_name(t: NameModel, cs: Seq<char>, pos: int)
    requires
        valid_name(t),
        0 <= pos,
        pos + render(t).len() <= cs.len(),
        cs.subrange(pos, pos + render(t).len()) == render(t),
        is_follow(cs, pos + render(t).len()),
    ensures
        parse_name_spec(cs, pos) == Some((t, pos + render(t).len())),
    decreases t, 0int,
{
    let b = t.basename();
    let ps = t.parameters();
    let end = pos + render(t).len();
    let e = pos + b.len();
    assert(render(t).subrange(0, b.len() as int) =~= b);
    assert forall|i: int| pos <= i < e implies is_name_char(#[trigger] cs[i]) by {
        assert(cs[i] == cs.subrange(pos, end)[i - pos]);
        assert(render(t)[i - pos] == b[i - pos]);
    }
    assert(cs[pos] == cs.subrange(pos, end)[0]);
    assert(render(t)[0] == b[0]);
    if ps.len() == 0 {
        lemma_scan_name(cs, pos, e);
        assert(cs.subrange(pos, e) =~= b);
        assert(ps =~= Seq::<ParamModel>::empty());
        assert(t == NameModel::Name { basename: b, parameters: Seq::empty() });
    } else {
        let r = render_params(ps, ps.len() as int);
        assert(render(t) == b + seq!['('] + r + seq![')']);
        assert(cs[e] == '(') by {
            assert(cs[e] == cs.subrange(pos, end)[b.len() as int]);
        }
        lemma_scan_name(cs, pos, e);
        assert(cs.subrange(pos, e) =~= b);
        let start = e + 1;
        assert(cs.subrange(start, start + r.len()) =~= r) by {
            assert forall|i: int| 0 <= i < r.len() implies cs.subrange(start, start + r.len())[i] == r[i] by {
                assert(cs.subrange(pos, end)[b.len() + 1int + i] == render(t)[b.len() + 1int + i]);
            }
        }
        assert(cs[start + r.len()] == ')') by {
            assert(cs.subrange(pos, end)[b.len() + 1int + r.len()] == render(t)[b.len() + 1int + r.len()]);
        }
        assert(ps.subrange(0, 0) =~= Seq::<ParamModel>::empty());
        lemma_parse_params(ps, cs, start, 0);
        assert(t == NameModel::Name { basename: b, parameters: ps });
    }
}

/// Position of parameter `k` after the opening parenthesis.
pub open spec fn param_offset(ps: Seq<ParamModel>, k: int) -> int {
    if k == 0 {
        0
    } else {
        render_params(ps, k).len() + 2int
    }
}

/// Valid parameters written after an opening parenthesis at `start` and
/// closed by `)` are read back from parameter `k` on.
proof fn lemma_parse_params(ps: Seq<ParamModel>, cs: Seq<char>, start: int, k: int)
    requires
        0 <= k < ps.len(),
        valid_params(ps, ps.len() as int),
        0 <= start,
        start + render_params(ps, ps.len() as int).len() < cs.len(),
        cs.subrange(start, start + render_params(ps, ps.len() as int).len()) == render_params(
            ps,
            ps.len() as int,
        ),
        cs[start + render_params(ps, ps.len() as int).len()] == ')',
    ensures
        parse_params_spec(cs, start + param_offset(ps, k), ps.subrange(0, k)) == Some(
            (ps, start + render_params(ps, ps.len() as int).len() + 1),
        ),
    decreases ps, ps.len() - k,
{
    let n = ps.len() as int;
    let r = render_params(ps, n);
    let q = start + param_offset(ps, k);
    let pt = param_text(ps[k]);
    let rk1 = render_params(ps, k + 1);
    lemma_render_params_prefix(ps, k + 1, n);
    if k == 0 {
        assert(rk1 == pt);
    } else {
        assert(rk1 == render_params(ps, k) + seq![',', ' '] + pt);
    }
    let e = q + pt.len();
    assert(e == start + rk1.len());
    lemma_valid_params(ps, n, k);
    lemma_param_text_start(ps[k]);
    assert forall|i: int| 0 <= i < pt.len() implies cs[q + i] == pt[i] by {
        assert(cs.subrange(start, start + r.len())[param_offset(ps, k) + i] == r[param_offset(ps, k) + i]);
        assert(r.subrange(0, rk1.len() as int)[param_offset(ps, k) + i] == rk1[param_offset(ps, k) + i]);
    }
    assert(cs.subrange(q, e) =~= pt);
    if k + 1 < n {
        assert(cs[e] == ',') by {
            assert(cs.subrange(start, start + r.len())[rk1.len() as int] == r[rk1.len() as int]);
        }
        assert(cs[e + 1] == ' ') by {
            assert(cs.subrange(start, start + r.len())[rk1.len() + 1int] == r[rk1.len() + 1int]);
        }
    } else {
        assert(r.subrange(0, rk1.len() as int) =~= r);
        assert(rk1.len() == r.len());
    }
    assert(cs[q] == pt[0]);
    match ps[k] {
        ParamModel::Type(t) => {
            lemma_parse_name(t, cs, q);
        },
        ParamModel::Number(v) => {
            lemma_parse_number(v, cs, q);
        },
    }
    assert(parse_param_spec(cs, q) == Some((ps[k], e)));
    assert(ps.subrange(0, k).push(ps[k]) =~= ps.subrange(0, k + 1));
    if k + 1 < n {
        lemma_parse_params(ps, cs, start, k + 1);
    } else {
        assert(ps.subrange(0, k + 1) =~= ps);
    }
}

proof fn lemma_digits_value_positive(s: Seq<char>)
    requires
        s.len() >= 1,
        s[0] != '0',
        forall|i: int| 0 <= i < s.len() ==> is_digit(#[trigger] s[i]),
    ensures
        digits_value(s) >= 1,
    decreases s.len(),
{
    if s.len() > 1 {
        lemma_digits_value_positive(s.drop_last());
    }
    assert(digits_value(s.drop_last()) >= 0) by {
        lemma_digits_value_nonneg(s.drop_last());
    }
}

proof fn lemma_digits_value_nonneg(s: Seq<char>)
    requires
        forall|i: int| 0 <= i < s.len() ==> is_digit(#[trigger] s[i]),
    ensures
        0 <= digits_value(s) <= magnitude_cap(),
    decreases s.len(),
{
    if s.len() > 0 {
        lemma_digits_value_nonneg(s.drop_last());
    }
}

/// A run of digits without a leading zero, whose value is below the cap, is
/// the text of that value.
proof fn lemma_digits_of_value(s: Seq<char>)
    requires
        s.len() >= 1,
        s[0] != '0' || s.len() == 1,
        forall|i: int| 0 <= i < s.len() ==> is_digit(#[trigger] s[i]),
        digits_value(s) < magnitude_cap(),
    ensures
        digits(digits_value(s) as nat) == s,
    decreases s.len(),
{
    let c = s.last();
    let d = c as int - '0' as int;
    assert(0 <= d < 10);
    assert(digit_char(d) == c);
    let p = s.drop_last();
    lemma_digits_value_nonneg(p);
    if s.len() == 1 {
        assert(p.len() == 0);
        assert(digits(d as nat) =~= s);
    } else {
        assert(p[0] == s[0]);
        lemma_digits_value_positive(p);
        assert(digits_value(p) < magnitude_cap());
        lemma_digits_of_value(p);
        let v = digits_value(s);
        assert(v == digits_value(p) * 10 + d);
        assert(v >= 10);
        assert(v / 10 == digits_value(p));
        assert(v % 10 == d);
        assert(s =~= p + seq![c]);
    }
}

proof fn lemma_sound_number(cs: Seq<char>, q: int)
    requires
        0 <= q < cs.len(),
        parse_number_spec(cs, q) is Some,
    ensures
        ({
            let (k, e) = parse_number_spec(cs, q)->Some_0;
            &&& q < e <= cs.len()
            &&& cs.subrange(q, e) == decimal(k)
            &&& i128::MIN <= k <= i128::MAX
        }),
{
    let neg = cs[q] == '-';
    let d0 = if neg {
        q + 1
    } else {
        q
    };
    lemma_scan_digits(cs, d0);
    let e = scan_digits(cs, d0);
    let run = cs.subrange(d0, e);
    lemma_digits_value_nonneg(run);
    let v = digits_value(run);
    assert(v <= 0x8000_0000_0000_0000_0000_0000_0000_0000);
    lemma_digits_of_value(run);
    if neg {
        assert(cs.subrange(q, e) =~= seq!['-'] + run);
        assert(v != 0) by {
            lemma_digits_value_positive(run);
        }
    } else {
        assert(cs.subrange(q, e) =~= run);
    }
}

/// A name read at `pos` is valid, and the text it was read from is its
/// canonical text.
proof fn lemma_sound_name(cs: Seq<char>, pos: int)
    requires
        parse_name_spec(cs, pos) is Some,
    ensures
        ({
            let (m, e) = parse_name_spec(cs, pos)->Some_0;
            &&& pos < e <= cs.len()
            &&& valid_name(m)
            &&& cs.subrange(pos, e) == render(m)
        }),
    decreases cs.len() - pos, 0int,
{
    let e = scan_name(cs, pos);
    assert(is_name_char(cs[pos]));
    lemma_scan_name_bounds(cs, pos + 1);
    assert(e == scan_name(cs, pos + 1));
    lemma_scan_name_bounds(cs, pos);
    let b = cs.subrange(pos, e);
    assert(valid_basename(b)) by {
        assert(b[0] == cs[pos]);
        assert forall|i: int| 0 <= i < b.len() implies is_name_char(#[trigger] b[i]) by {
            assert(b[i] == cs[pos + i]);
        }
    }
    if pos < e < cs.len() && cs[e] == '(' {
        lemma_sound_params(cs, e + 1, Seq::empty(), e + 1);
        let (ps, q) = parse_params_spec(cs, e + 1, Seq::empty())->Some_0;
        let r = render_params(ps, ps.len() as int);
        assert(cs.subrange(pos, q) =~= b + seq!['('] + r + seq![')']) by {
            assert(cs.subrange(pos, q) =~= cs.subrange(pos, e) + seq![cs[e]] + cs.subrange(e + 1, q - 1) + seq![
                cs[q - 1],
            ]);
        }
    } else {
        assert(cs.subrange(pos, e) == render(NameModel::Name { basename: b, parameters: Seq::empty() }));
    }
}

proof fn lemma_scan_name_bounds(cs: Seq<char>, j: int)
    requires
        0 <= j <= cs.len(),
    ensures
        j <= scan_name(cs, j) <= cs.len(),
        forall|i: int| j <= i < scan_name(cs, j) ==> is_name_char(#[trigger] cs[i]),
    decreases cs.len() - j,
{
    if j < cs.len() && is_name_char(cs[j]) {
        lemma_scan_name_bounds(cs, j + 1);
    }
}

/// Parameters read from `q` on, after those in `acc` that were read from
/// `start`, are valid and their text, closed by `)`, is what was read.
proof fn lemma_sound_params(cs: Seq<char>, q: int, acc: Seq<ParamModel>, start: int)
    requires
        parse_params_spec(cs, q, acc) is Some,
        0 <= start <= q,
        valid_params(acc, acc.len() as int),
        acc.len() == 0 ==> q == start,
        acc.len() > 0 ==> cs.subrange(start, q) == render_params(acc, acc.len() as int) + seq![',', ' '],
    ensures
        ({
            let (ps, e) = parse_params_spec(cs, q, acc)->Some_0;
            &&& q < e <= cs.len()
            &&& ps.len() >= 1
            &&& valid_params(ps, ps.len() as int)
            &&& cs.subrange(start, e - 1) == render_params(ps, ps.len() as int)
            &&& cs[e - 1] == ')'
        }),
    decreases cs.len() - q, 2int,
{
    let (p, e) = parse_param_spec(cs, q)->Some_0;
    if cs[q] == '-' || is_digit(cs[q]) {
        lemma_sound_number(cs, q);
    } else {
        lemma_sound_name(cs, q);
    }
    assert(cs.subrange(q, e) == param_text(p));
    let acc2 = acc.push(p);
    let n = acc2.len() as int;
    assert(valid_params(acc2, n)) by {
        lemma_valid_params_same(acc2, acc, n - 1);
    }
    assert(cs.subrange(start, e) == render_params(acc2, n)) by {
        assert(acc2[n - 1] == p);
        lemma_render_params_same(acc2, acc, n - 1);
        if acc.len() == 0 {
            assert(render_params(acc2, n) == param_text(p));
        } else {
            assert(render_params(acc2, n) == render_params(acc, n - 1) + seq![',', ' '] + param_text(p));
            assert(cs.subrange(start, e) =~= cs.subrange(start, q) + cs.subrange(q, e));
        }
    }
    if cs[e] == ')' {
    } else {
        assert(cs.subrange(start, e + 2) =~= cs.subrange(start, e) + seq![cs[e], cs[e + 1]]);
        lemma_sound_params(cs, e + 2, acc2, start);
    }
}

/// Rendering and validity of a prefix depend on the prefix alone.
proof fn lemma_render_params_same(a: Seq<ParamModel>, b: Seq<ParamModel>, n: int)
    requires
        0 <= n <= b.len(),
        n <= a.len(),
        forall|i: int| 0 <= i < n ==> a[i] == b[i],
    ensures
        render_params(a, n) == render_params(b, n),
    decreases n,
{
    if n > 0 {
        lemma_render_params_same(a, b, n - 1);
    }
}

proof fn lemma_valid_params_same(a: Seq<ParamModel>, b: Seq<ParamModel>, n: int)
    requires
        0 <= n <= b.len(),
        n <= a.len(),
        forall|i: int| 0 <= i < n ==> a[i] == b[i],
    ensures
        valid_params(a, n) == valid_params(b, n),
    decreases n,
{
    if n > 0 {
        lemma_valid_params_same(a, b, n - 1);
    }
}

/// What a whole text is read as is valid and has that text as its
/// canonical text.
pub proof fn lemma_parse_sound(cs: Seq<char>)
    requires
        parse_text(cs) is Some,
    ensures
        valid_name(parse_text(cs)->Some_0),
        render(parse_text(cs)->Some_0) == cs,
{
    lemma_sound_name(cs, 0);
    assert(cs.subrange(0, cs.len() as int) =~= cs);
}

/// Reading back the canonical text of a valid name gives the name itself.
pub proof fn lemma_round_trip(t: NameModel)
    requires
        valid_name(t),
    ensures
        parse_text(render(t)) == Some(t),
{
    let cs = render(t);
    assert(cs.subrange(0, cs.len() as int) =~= cs);
    lemma_parse_name(t, cs, 0);
}

fn is_name_char_at(c: char) -> (r: bool)
    ensures
        r == is_name_char(c),
{
    c != '(' && c != ')' && c != ',' && c != ' '
}

fn is_digit_char(c: char) -> (r: bool)
    ensures
        r == is_digit(c),
{
    '0' <= c && c <= '9'
}

fn scan_name_at(cs: &Vec<char>, j: usize) -> (r: usize)
    requires
        j <= cs@.len(),
    ensures
        r == scan_name(cs@, j as int),
        j <= r <= cs@.len(),
{
    let mut i = j;
    while i < cs.len() && is_name_char_at(cs[i])
        invariant
            j <= i <= cs@.len(),
            scan_name(cs@, j as int) == scan_name(cs@, i as int),
        decreases cs.len() - i,
    {
        i = i + 1;
    }
    i
}

fn scan_digits_at(cs: &Vec<char>, j: usize) -> (r: usize)
    requires
        j <= cs@.len(),
    ensures
        r == scan_digits(cs@, j as int),
        j <= r <= cs@.len(),
{
    let mut i = j;
    while i < cs.len() && is_digit_char(cs[i])
        invariant
            j <= i <= cs@.len(),
            scan_digits(cs@, j as int) == scan_digits(cs@, i as int),
        decreases cs.len() - i,
    {
        i = i + 1;
    }
    i
}

proof fn lemma_scan_digits(cs: Seq<char>, j: int)
    requires
        0 <= j <= cs.len(),
    ensures
        j <= scan_digits(cs, j) <= cs.len(),
        forall|i: int| j <= i < scan_digits(cs, j) ==> is_digit(#[trigger] cs[i]),
    decreases cs.len() - j,
{
    if j < cs.len() && is_digit(cs[j]) {
        lemma_scan_digits(cs, j + 1);
    }
}

fn parse_number_at(cs: &Vec<char>, q: usize) -> (r: Option<(i128, usize)>)
    requires
        q < cs@.len(),
    ensures
        match r {
            Some((k, e)) => parse_number_spec(cs@, q as int) == Some((k as int, e as int)),
            None => parse_number_spec(cs@, q as int) is None,
        },
{
    let len = cs.len();
    let neg = cs[q] == '-';
    let d0 = if neg {
        q + 1
    } else {
        q
    };
    let e = scan_digits_at(cs, d0);
    if e == d0 {
        return None;
    }
    if cs[d0] == '0' && (e > d0 + 1 || neg) {
        return None;
    }
    proof {
        lemma_scan_digits(cs@, d0 as int);
    }
    let cap: u128 = 0x8000_0000_0000_0000_0000_0000_0000_0001;
    let mut acc: u128 = 0;
    let mut i = d0;
    assert(cs@.subrange(d0 as int, d0 as int).len() == 0);
    while i < e
        invariant
            d0 <= i <= e <= cs@.len(),
            e == scan_digits(cs@, d0 as int),
            forall|j: int| d0 <= j < e ==> is_digit(#[trigger] cs@[j]),
            cap == magnitude_cap(),
            acc == digits_value(cs@.subrange(d0 as int, i as int)),
            0 <= acc <= cap,
        decreases e - i,
    {
        let d: u128 = (cs[i] as u32 - '0' as u32) as u128;
        assert(cs@.subrange(d0 as int, i + 1).drop_last() =~= cs@.subrange(d0 as int, i as int));
        let ghost prev = acc;
        if acc > cap / 10 {
            assert(prev * 10 + d > cap) by (nonlinear_arith)
                requires
                    prev > cap / 10,
                    cap == magnitude_cap(),
                    d >= 0,
            ;
            acc = cap;
        } else {
            assert(prev * 10 <= cap) by (nonlinear_arith)
                requires
                    prev <= cap / 10,
                    cap == magnitude_cap(),
            ;
            acc = acc * 10 + d;
            if acc > cap {
                acc = cap;
            }
        }
        i = i + 1;
    }
    let max_positive: u128 = 0x7fff_ffff_ffff_ffff_ffff_ffff_ffff_ffff;
    if neg {
        if acc > max_positive + 1 {
            None
        } else if acc == max_positive + 1 {
            Some((i128::MIN, e))
        } else {
            Some((-(acc as i128), e))
        }
    } else {
        if acc > max_positive {
            None
        } else {
            Some((acc as i128, e))
        }
    }
}

fn parse_name_at(s: &str, cs: &Vec<char>, pos: usize) -> (r: Option<(TypeName, usize)>)
    requires
        cs@ == s@,
        pos <= cs@.len(),
    ensures
        match r {
            Some((x, e)) => parse_name_spec(cs@, pos as int) == Some((x@, e as int)),
            None => parse_name_spec(cs@, pos as int) is None,
        },
    decreases cs@.len() - pos, 0int,
{
    if pos >= cs.len() || !is_name_char_at(cs[pos]) {
        return None;
    }
    let e = scan_name_at(cs, pos);
    let basename = s.substring_char(pos, e);
    if pos < e && e < cs.len() && cs[e] == '(' {
        match parse_params_at(s, cs, e + 1, Vec::new()) {
            None => None,
            Some((ps, q)) => {
                proof {
                    lemma_params_model(Seq::<TypeParameter>::empty());
                    assert(params_model(Seq::<TypeParameter>::empty()) =~= Seq::<ParamModel>::empty());
                }
                Some((TypeName::new(basename, ps), q))
            },
        }
    } else {
        Some((TypeName::from_basename(basename), e))
    }
}

fn parse_param_at(s: &str, cs: &Vec<char>, q: usize) -> (r: Option<(TypeParameter, usize)>)
    requires
        cs@ == s@,
        q <= cs@.len(),
    ensures
        match r {
            Some((p, e)) => parse_param_spec(cs@, q as int) == Some((param_model(p), e as int)),
            None => parse_param_spec(cs@, q as int) is None,
        },
    decreases cs@.len() - q, 1int,
{
    if q >= cs.len() {
        None
    } else if cs[q] == '-' || is_digit_char(cs[q]) {
        match parse_number_at(cs, q) {
            None => None,
            Some((k, e)) => Some((TypeParameter::Number(k), e)),
        }
    } else {
        match parse_name_at(s, cs, q) {
            None => None,
            Some((t, e)) => Some((TypeParameter::Type(Arc::new(t)), e)),
        }
    }
}

fn parse_params_at(s: &str, cs: &Vec<char>, q: usize, acc: Vec<TypeParameter>) -> (r: Option<
    (Vec<TypeParameter>, usize),
>)
    requires
        cs@ == s@,
        q <= cs@.len(),
    ensures
        match r {
            Some((ps, e)) => parse_params_spec(cs@, q as int, params_model(acc@)) == Some(
                (params_model(ps@), e as int),
            ),
            None => parse_params_spec(cs@, q as int, params_model(acc@)) is None,
        },
    decreases cs@.len() - q, 2int,
{
    if q >= cs.len() {
        return None;
    }
    match parse_param_at(s, cs, q) {
        None => None,
        Some((p, e)) => {
            if e <= q || e >= cs.len() {
                return None;
            }
            let mut acc = acc;
            let ghost before = acc@;
            acc.push(p);
            proof {
                crate::naming::lemma_params_model_push(before, p);
            }
            if cs[e] == ')' {
                Some((acc, e + 1))
            } else if e + 1 < cs.len() && cs[e] == ',' && cs[e + 1] == ' ' {
                parse_params_at(s, cs, e + 2, acc)
            } else {
                None
            }
        },
    }
}

/// Whether a basename is valid.
pub fn is_valid_basename(b: &str) -> (r: bool)
    ensures
        r == valid_basename(b@),
{
    let n = b.unicode_len();
    if n == 0 {
        return false;
    }
    let mut i: usize = 0;
    while i < n
        invariant
            n == b@.len(),
            0 <= i <= n,
            forall|j: int| 0 <= j < i ==> is_name_char(#[trigger] b@[j]),
        decreases n - i,
    {
        let c = b.get_char(i);
        if !is_name_char_at(c) {
            return false;
        }
        i = i + 1;
    }
    true
}

impl TypeName {
    /// Whether the basename and every nested basename are valid, which makes
    /// the canonical text read back as this name.
    pub fn is_valid(&self) -> (r: bool)
        ensures
            r == valid_name(self@),
        decreases self,
    {
        proof {
            self.lemma_view();
        }
        if !is_valid_basename(self.basename()) {
            return false;
        }
        let parameters = self.parameters();
        let ghost ms = params_model(parameters@);
        proof {
            lemma_params_model(parameters@);
        }
        let mut i: usize = 0;
        while i < parameters.len()
            invariant
                parameters@ == self.parameters_spec(),
                ms == params_model(parameters@),
                ms == self@.parameters(),
                ms.len() == parameters@.len(),
                forall|j: int| 0 <= j < ms.len() ==> #[trigger] ms[j] == param_model(parameters@[j]),
                0 <= i <= parameters@.len(),
                valid_params(ms, i as int),
            decreases parameters.len() - i,
        {
            match &parameters[i] {
                TypeParameter::Type(t) => {
                    proof {
                        self.lemma_parameter_decreases(i as int);
                    }
                    if !t.is_valid() {
                        proof {
                            if valid_params(ms, ms.len() as int) {
                                lemma_valid_params(ms, ms.len() as int, i as int);
                            }
                        }
                        return false;
                    }
                    let c = t.basename().get_char(0);
                    if c == '-' || is_digit_char(c) {
                        proof {
                            if valid_params(ms, ms.len() as int) {
                                lemma_valid_params(ms, ms.len() as int, i as int);
                            }
                        }
                        return false;
                    }
                },
                TypeParameter::Number(_) => {},
            }
            i = i + 1;
        }
        true
    }

    /// Reads a name back from its canonical text. Exactly the canonical
    /// texts of valid names are accepted.
    pub fn parse(s: &str) -> (r: Result<TypeName, TypeError>)
        ensures
            match r {
                Ok(x) => valid_name(x@) && render(x@) == s@,
                Err(e) => e@ == ErrorModel::MalformedTypeSyntax(s@) && !(exists|t: NameModel|
                    valid_name(t) && #[trigger] render(t) == s@),
            },
    {
        let n = s.unicode_len();
        let mut cs: Vec<char> = Vec::new();
        let mut i: usize = 0;
        while i < n
            invariant
                n == s@.len(),
                0 <= i <= n,
                cs@ == s@.subrange(0, i as int),
            decreases n - i,
        {
            cs.push(s.get_char(i));
            i = i + 1;
            assert(cs@ =~= s@.subrange(0, i as int));
        }
        assert(cs@ =~= s@);
        proof {
            if parse_text(s@) is Some {
                lemma_parse_sound(s@);
            }
            assert forall|t: NameModel| valid_name(t) && #[trigger] render(t) == s@ implies parse_text(s@) == Some(
                t,
            ) by {
                lemma_round_trip(t);
            }
        }
        match parse_name_at(s, &cs, 0) {
            Some((x, e)) => {
                if e == cs.len() {
                    Ok(x)
                } else {
                    Err(TypeError::MalformedTypeSyntax(s.to_owned()))
                }
            },
            None => Err(TypeError::MalformedTypeSyntax(s.to_owned())),
        }
    }
}

impl std::str::FromStr for TypeName {
    type Err = TypeError;

    fn from_str(s: &str) -> Result<TypeName, TypeError> {
        TypeName::parse(s)
    }
}

} // verus!

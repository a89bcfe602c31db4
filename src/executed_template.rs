use vstd::prelude::*;
use vstd::multiset::Multiset;
use num_bigint_dig::BigInt;
use crate::number::number_eq;
use crate::order::{chars_key, indices_key, indices_less, lex_lt, name_less};
use crate::signals::{expand, generate_symbols, lemma_expand_tags, Registration, SignalType};

verus! {

broadcast use vstd::seq_lib::group_to_multiset_ensures;

/// Declared signals (or sub-component arrays) in declaration order: name and shape.
pub type SignalCollector = Vec<(String, Vec<usize>)>;

pub type ComponentCollector = Vec<(String, Vec<usize>)>;

/// One element of a parameter's value: a number, or an expression that is not one.
pub enum ParameterEntry {
    Number(BigInt),
    Expression,
}

/// The value of a template parameter: its shape and its flattened contents.
pub struct ParameterValue {
    pub lengths: Vec<usize>,
    pub values: Vec<ParameterEntry>,
}

/// The parameters of an instantiation, by name.
pub type ParameterContext = Vec<(String, ParameterValue)>;

/// A reference to one element of a sub-component array.
pub struct SubComponentData {
    pub name: String,
    pub goes_to: usize,
    pub indexed_with: Vec<usize>,
}

pub struct Connexion {
    pub full_name: String,
    pub inspect: SubComponentData,
    pub dag_offset: usize,
    pub dag_component_offset: usize,
    pub dag_jump: usize,
    pub dag_component_jump: usize,
}

pub struct ExecutedTemplate<Code, Cons> {
    pub code: Code,
    pub template_name: String,
    pub report_name: String,
    pub inputs: SignalCollector,
    pub outputs: SignalCollector,
    pub constraints: Vec<Cons>,
    pub intermediates: SignalCollector,
    pub components: ComponentCollector,
    pub public_inputs: Vec<String>,
    pub parameter_instances: ParameterContext,
    pub is_parallel: bool,
    pub has_parallel_sub_cmp: bool,
    pub connexions: Vec<Connexion>,
}

pub open spec fn decls_view(d: Seq<(String, Vec<usize>)>) -> Seq<(Seq<char>, Seq<usize>)> {
    d.map_values(|e: (String, Vec<usize>)| (e.0@, e.1@))
}

pub open spec fn parameters_view(p: Seq<(String, ParameterValue)>) -> Seq<
    (Seq<char>, Seq<usize>, Seq<ParameterEntry>),
> {
    p.map_values(|e: (String, ParameterValue)| (e.0@, e.1.lengths@, e.1.values@))
}

/// Two entry lists have the same length and the same kind of entry at each place.
pub open spec fn entry_kinds_match(a: Seq<ParameterEntry>, b: Seq<ParameterEntry>) -> bool {
    &&& a.len() == b.len()
    &&& forall|k: int| 0 <= k < a.len() ==> (#[trigger] a[k] is Number) == (b[k] is Number)
}

pub open spec fn slot_match(a: (String, ParameterValue), b: (String, ParameterValue)) -> bool {
    &&& a.0@ == b.0@
    &&& a.1.lengths@ == b.1.lengths@
    &&& entry_kinds_match(a.1.values@, b.1.values@)
}

/// Two contexts agree on names, shapes and entry kinds, place by place.
pub open spec fn parameters_match(a: Seq<(String, ParameterValue)>, b: Seq<(String, ParameterValue)>) -> bool {
    &&& a.len() == b.len()
    &&& forall|k: int| 0 <= k < a.len() ==> #[trigger] slot_match(a[k], b[k])
}

/// A context lists each parameter once, by strictly increasing name, so that
/// equal mappings have equal lists.
pub open spec fn parameters_wf(p: Seq<(String, ParameterValue)>) -> bool {
    forall|i: int, j: int|
        0 <= i < j < p.len() ==> lex_lt(chars_key(#[trigger] p[i].0@), chars_key(#[trigger] p[j].0@))
}

pub open spec fn names_contain(names: Seq<String>, n: Seq<char>) -> bool {
    exists|i: int| 0 <= i < names.len() && names[i]@ == n
}

/// The scalars of all declarations of one category, declaration after declaration.
pub open spec fn expand_all(decls: Seq<(Seq<char>, Seq<usize>)>, st: SignalType, public: bool) -> Seq<
    (Seq<char>, SignalType, bool),
>
    decreases decls.len(),
{
    if decls.len() == 0 {
        seq![]
    } else {
        expand_all(decls.drop_last(), st, public) + expand(
            decls.last().0,
            decls.last().1,
            st,
            public,
        )
    }
}

/// The scalars of the inputs whose visibility is `public`.
pub open spec fn expand_inputs(
    decls: Seq<(Seq<char>, Seq<usize>)>,
    publics: Seq<String>,
    public: bool,
) -> Seq<(Seq<char>, SignalType, bool)>
    decreases decls.len(),
{
    if decls.len() == 0 {
        seq![]
    } else {
        expand_inputs(decls.drop_last(), publics, public) + if names_contain(
            publics,
            decls.last().0,
        ) == public {
            expand(decls.last().0, decls.last().1, SignalType::Input, public)
        } else {
            seq![]
        }
    }
}

/// The order in which an instantiation's scalar signals enter the dependency graph:
/// outputs, public inputs, private inputs, intermediates.
pub open spec fn registration_plan<Code, Cons>(t: ExecutedTemplate<Code, Cons>) -> Seq<
    (Seq<char>, SignalType, bool),
> {
    expand_all(decls_view(t.outputs@), SignalType::Output, false) + expand_inputs(
        decls_view(t.inputs@),
        t.public_inputs@,
        true,
    ) + expand_inputs(decls_view(t.inputs@), t.public_inputs@, false) + expand_all(
        decls_view(t.intermediates@),
        SignalType::Intermediate,
        false,
    )
}

/// The order of connexions: by array name, then by index.
pub open spec fn connexion_lt(a: Connexion, b: Connexion) -> bool {
    lex_lt(chars_key(a.inspect.name@), chars_key(b.inspect.name@)) || (a.inspect.name@
        == b.inspect.name@ && lex_lt(
        indices_key(a.inspect.indexed_with@),
        indices_key(b.inspect.indexed_with@),
    ))
}

pub open spec fn connexions_sorted(s: Seq<Connexion>) -> bool {
    forall|i: int, j: int| 0 <= i < j < s.len() ==> !connexion_lt(#[trigger] s[j], #[trigger] s[i])
}

pub open spec fn is_used(cs: Seq<Connexion>, n: Seq<char>) -> bool {
    exists|i: int| 0 <= i < cs.len() && cs[i].inspect.name@ == n
}

/// The declared sub-component arrays that some connexion refers to, in declaration order.
pub open spec fn used_components(comps: Seq<(String, Vec<usize>)>, cs: Seq<Connexion>) -> Seq<
    (String, Vec<usize>),
>
    decreases comps.len(),
{
    if comps.len() == 0 {
        seq![]
    } else {
        used_components(comps.drop_last(), cs) + if is_used(cs, comps.last().0@) {
            seq![comps.last()]
        } else {
            seq![]
        }
    }
}

pub open spec fn same_key(a: Connexion, b: Connexion) -> bool {
    a.inspect.name@ == b.inspect.name@ && a.inspect.indexed_with@ == b.inspect.indexed_with@
}

/// The connexions of `s` whose key (name, index) is that of `c`, in order.
pub open spec fn with_key(s: Seq<Connexion>, c: Connexion) -> Seq<Connexion>
    decreases s.len(),
{
    if s.len() == 0 {
        seq![]
    } else {
        with_key(s.drop_last(), c) + if same_key(s.last(), c) {
            seq![s.last()]
        } else {
            seq![]
        }
    }
}

pub proof fn lemma_with_key_concat(a: Seq<Connexion>, b: Seq<Connexion>, c: Connexion)
    ensures
        with_key(a + b, c) == with_key(a, c) + with_key(b, c),
    decreases b.len(),
{
    if b.len() == 0 {
        assert(a + b =~= a);
        assert(with_key(a, c) + with_key(b, c) =~= with_key(a, c));
    } else {
        assert((a + b).drop_last() =~= a + b.drop_last());
        lemma_with_key_concat(a, b.drop_last(), c);
        assert(with_key(a + b, c) =~= with_key(a, c) + with_key(b, c));
    }
}

pub proof fn lemma_with_key_none(s: Seq<Connexion>, c: Connexion)
    requires
        forall|j: int| 0 <= j < s.len() ==> !same_key(#[trigger] s[j], c),
    ensures
        with_key(s, c) == Seq::<Connexion>::empty(),
    decreases s.len(),
{
    if s.len() > 0 {
        lemma_with_key_none(s.drop_last(), c);
        assert(with_key(s, c) =~= Seq::<Connexion>::empty());
    }
}

pub proof fn lemma_with_key_single(x: Connexion, c: Connexion)
    ensures
        with_key(seq![x], c) == if same_key(x, c) {
            seq![x]
        } else {
            Seq::<Connexion>::empty()
        },
{
    let e = Seq::<Connexion>::empty();
    assert(seq![x].drop_last() =~= e);
    assert(seq![x].last() == x);
    assert(with_key(e, c) == e);
    assert(with_key(seq![x], c) == with_key(e, c) + if same_key(x, c) {
        seq![x]
    } else {
        e
    });
    if same_key(x, c) {
        assert(with_key(seq![x], c) =~= seq![x]);
    } else {
        assert(with_key(seq![x], c) =~= Seq::<Connexion>::empty());
    }
}

pub proof fn lemma_connexion_lt_transitive(a: Connexion, b: Connexion, c: Connexion)
    requires
        connexion_lt(a, b),
        connexion_lt(b, c),
    ensures
        connexion_lt(a, c),
{
    let (ka, kb, kc) = (
        chars_key(a.inspect.name@),
        chars_key(b.inspect.name@),
        chars_key(c.inspect.name@),
    );
    if lex_lt(ka, kb) && lex_lt(kb, kc) {
        crate::order::lemma_lex_lt_transitive(ka, kb, kc);
    } else if !lex_lt(ka, kb) && !lex_lt(kb, kc) {
        crate::order::lemma_lex_lt_transitive(
            indices_key(a.inspect.indexed_with@),
            indices_key(b.inspect.indexed_with@),
            indices_key(c.inspect.indexed_with@),
        );
    }
}

pub(crate) fn contains_name(names: &Vec<String>, n: &String) -> (r: bool)
    ensures
        r == names_contain(names@, n@),
{
    let mut i: usize = 0;
    while i < names.len()
        invariant
            i <= names@.len(),
            forall|k: int| 0 <= k < i ==> names@[k]@ != n@,
        decreases names@.len() - i,
    {
        if names[i] == *n {
            return true;
        }
        i = i + 1;
    }
    false
}

fn register_all(out: &mut Vec<Registration>, decls: &SignalCollector, st: SignalType, public: bool)
    ensures
        final(out)@.map_values(|r: Registration| r@) == old(out)@.map_values(|r: Registration| r@)
            + expand_all(decls_view(decls@), st, public),
{
    let ghost start = out@.map_values(|r: Registration| r@);
    let mut i: usize = 0;
    while i < decls.len()
        invariant
            i <= decls@.len(),
            out@.map_values(|r: Registration| r@) == start + expand_all(
                decls_view(decls@.take(i as int)),
                st,
                public,
            ),
        decreases decls@.len() - i,
    {
        proof {
            assert(decls_view(decls@.take(i + 1)).drop_last() =~= decls_view(decls@.take(i as int)));
            assert(decls@[i as int].1@.skip(0) =~= decls@[i as int].1@);
        }
        generate_symbols(out, decls[i].0.clone(), &decls[i].1, 0, st, public);
        i = i + 1;
    }
    proof {
        assert(decls@.take(i as int) =~= decls@);
    }
}

fn register_inputs(
    out: &mut Vec<Registration>,
    decls: &SignalCollector,
    publics: &Vec<String>,
    public: bool,
)
    ensures
        final(out)@.map_values(|r: Registration| r@) == old(out)@.map_values(|r: Registration| r@)
            + expand_inputs(decls_view(decls@), publics@, public),
{
    let ghost start = out@.map_values(|r: Registration| r@);
    let mut i: usize = 0;
    while i < decls.len()
        invariant
            i <= decls@.len(),
            out@.map_values(|r: Registration| r@) == start + expand_inputs(
                decls_view(decls@.take(i as int)),
                publics@,
                public,
            ),
        decreases decls@.len() - i,
    {
        proof {
            assert(decls_view(decls@.take(i + 1)).drop_last() =~= decls_view(decls@.take(i as int)));
            assert(decls@[i as int].1@.skip(0) =~= decls@[i as int].1@);
        }
        if contains_name(publics, &decls[i].0) == public {
            generate_symbols(out, decls[i].0.clone(), &decls[i].1, 0, SignalType::Input, public);
        } else {
            proof {
                assert(out@.map_values(|r: Registration| r@) =~= start + expand_inputs(
                    decls_view(decls@.take(i + 1)),
                    publics@,
                    public,
                ));
            }
        }
        i = i + 1;
    }
    proof {
        assert(decls@.take(i as int) =~= decls@);
    }
}


pub proof fn lemma_connexion_lt_irreflexive(a: Connexion)
    ensures
        !connexion_lt(a, a),
{
    crate::order::lemma_lex_lt_irreflexive(chars_key(a.inspect.name@));
    crate::order::lemma_lex_lt_irreflexive(indices_key(a.inspect.indexed_with@));
}

fn connexion_less(a: &Connexion, b: &Connexion) -> (r: bool)
    ensures
        r == connexion_lt(*a, *b),
{
    if name_less(&a.inspect.name, &b.inspect.name) {
        true
    } else if a.inspect.name == b.inspect.name {
        indices_less(&a.inspect.indexed_with, &b.inspect.indexed_with)
    } else {
        false
    }
}

/// Sorts the connexions by sub-component array name, then by index, keeping
/// the order of connexions that compare equal.
pub fn sort_connexions(v: &mut Vec<Connexion>)
    ensures
        connexions_sorted(final(v)@),
        final(v)@.to_multiset() == old(v)@.to_multiset(),
        forall|c: Connexion| #[trigger] with_key(final(v)@, c) == with_key(old(v)@, c),
{
    let mut input: Vec<Connexion> = Vec::new();
    std::mem::swap(v, &mut input);
    let ghost orig = input@;
    proof {
        assert(v@ =~= Seq::<Connexion>::empty());
        assert(v@.to_multiset().len() == 0);
        assert(v@.to_multiset() =~= Multiset::empty());
        assert(v@.to_multiset().add(input@.to_multiset()) =~= orig.to_multiset());
        assert forall|c: Connexion| #[trigger] with_key(orig, c) == with_key(v@, c) + with_key(
            input@,
            c,
        ) by {
            assert(with_key(v@, c) =~= Seq::<Connexion>::empty());
            assert(with_key(v@, c) + with_key(input@, c) =~= with_key(input@, c));
        }
    }
    while input.len() > 0
        invariant
            connexions_sorted(v@),
            v@.to_multiset().add(input@.to_multiset()) == orig.to_multiset(),
            forall|c: Connexion| #[trigger] with_key(orig, c) == with_key(v@, c) + with_key(input@, c),
        decreases input@.len(),
    {
        let ghost before_in = input@;
        let x = input.remove(0);
        proof {
            assert(before_in =~= input@.insert(0, x));
        }
        let mut p: usize = 0;
        while p < v.len() && !connexion_less(&x, &v[p])
            invariant
                p <= v@.len(),
                forall|k: int| 0 <= k < p ==> !connexion_lt(x, #[trigger] v@[k]),
            decreases v@.len() - p,
        {
            p = p + 1;
        }
        let ghost before_v = v@;
        v.insert(p, x);
        proof {
            assert(v@ == before_v.insert(p as int, x));
            assert forall|i: int, j: int| 0 <= i < j < v@.len() implies !connexion_lt(
                #[trigger] v@[j],
                #[trigger] v@[i],
            ) by {
                if j == p {
                    assert(v@[i] == before_v[i]);
                } else if i == p {
                    assert(v@[j] == before_v[j - 1]);
                    if connexion_lt(v@[j], x) {
                        lemma_connexion_lt_transitive(v@[j], x, before_v[p as int]);
                        if j - 1 == p {
                            lemma_connexion_lt_irreflexive(before_v[p as int]);
                        } else {
                            assert(!connexion_lt(before_v[j - 1], before_v[p as int]));
                        }
                    }
                } else {
                    let bi = if i < p { i } else { i - 1 };
                    let bj = if j < p { j } else { j - 1 };
                    assert(v@[i] == before_v[bi]);
                    assert(v@[j] == before_v[bj]);
                }
            }
            assert(v@.to_multiset().add(input@.to_multiset()) =~= orig.to_multiset());
            assert forall|j: int| p <= j < before_v.len() implies !same_key(
                #[trigger] before_v[j],
                x,
            ) by {
                if same_key(before_v[j], x) {
                    assert(connexion_lt(x, before_v[p as int]));
                    assert(connexion_lt(before_v[j], before_v[p as int]));
                    if j == p {
                        lemma_connexion_lt_irreflexive(before_v[p as int]);
                    }
                }
            }
            assert forall|c: Connexion| #[trigger] with_key(orig, c) == with_key(v@, c) + with_key(
                input@,
                c,
            ) by {
                let t = before_v.take(p as int);
                let r = before_v.skip(p as int);
                assert(before_v =~= t + r);
                assert(v@ =~= t + seq![x] + r);
                assert(before_in =~= seq![x] + input@);
                lemma_with_key_concat(t, r, c);
                lemma_with_key_concat(t + seq![x], r, c);
                lemma_with_key_concat(t, seq![x], c);
                lemma_with_key_concat(seq![x], input@, c);
                lemma_with_key_single(x, c);
                assert(with_key(orig, c) == with_key(before_v, c) + with_key(before_in, c));
                if same_key(x, c) {
                    assert forall|j: int| 0 <= j < r.len() implies !same_key(#[trigger] r[j], c) by {
                        assert(r[j] == before_v[p + j]);
                    }
                    lemma_with_key_none(r, c);
                }
                assert(with_key(v@, c) + with_key(input@, c) =~= with_key(before_v, c) + with_key(
                    before_in,
                    c,
                ));
            }
        }
    }
    proof {
        assert forall|c: Connexion| #[trigger] with_key(v@, c) == with_key(orig, c) by {
            assert(input@.len() == 0);
            assert(with_key(input@, c) =~= Seq::<Connexion>::empty());
            assert(with_key(v@, c) + with_key(input@, c) =~= with_key(v@, c));
        }
        assert(input@.to_multiset().len() == 0);
        assert(v@.to_multiset() =~= orig.to_multiset());
    }
}

/// Keeps, in declaration order, the sub-component arrays that some connexion uses.
pub fn filter_used_components(comps: ComponentCollector, cs: &Vec<Connexion>) -> (r:
    ComponentCollector)
    ensures
        r@ == used_components(comps@, cs@),
{
    let ghost orig = comps@;
    let mut comps = comps;
    let mut r: ComponentCollector = Vec::new();
    let ghost mut k: int = 0;
    while comps.len() > 0
        invariant
            0 <= k <= orig.len(),
            comps@ == orig.skip(k),
            r@ == used_components(orig.take(k), cs@),
        decreases comps@.len(),
    {
        let c = comps.remove(0);
        let mut used = false;
        let mut i: usize = 0;
        while i < cs.len()
            invariant
                i <= cs@.len(),
                used == exists|m: int| 0 <= m < i && cs@[m].inspect.name@ == c.0@,
            decreases cs@.len() - i,
        {
            if cs[i].inspect.name == c.0 {
                used = true;
            }
            i = i + 1;
        }
        proof {
            assert(orig.take(k + 1).drop_last() =~= orig.take(k));
            assert(orig.take(k + 1).last() == c);
        }
        if used {
            r.push(c);
        }
        proof {
            assert(comps@ =~= orig.skip(k + 1));
            k = k + 1;
        }
    }
    proof {
        assert(orig.take(k) =~= orig);
    }
    r
}

pub(crate) fn copy_dims(d: &[usize]) -> (r: Vec<usize>)
    ensures
        r@ == d@,
{
    let mut r: Vec<usize> = Vec::new();
    let mut i: usize = 0;
    while i < d.len()
        invariant
            i <= d@.len(),
            r@ == d@.take(i as int),
        decreases d@.len() - i,
    {
        r.push(d[i]);
        proof {
            assert(d@.take(i + 1) =~= d@.take(i as int).push(d@[i as int]));
        }
        i = i + 1;
    }
    proof {
        assert(d@.take(i as int) =~= d@);
    }
    r
}

fn usizes_equal(a: &Vec<usize>, b: &Vec<usize>) -> (r: bool)
    ensures
        r == (a@ == b@),
{
    if a.len() != b.len() {
        return false;
    }
    let mut i: usize = 0;
    while i < a.len()
        invariant
            i <= a@.len(),
            a@.len() == b@.len(),
            forall|k: int| 0 <= k < i ==> a@[k] == b@[k],
        decreases a@.len() - i,
    {
        if a[i] != b[i] {
            return false;
        }
        i = i + 1;
    }
    proof {
        assert(a@ =~= b@);
    }
    true
}

fn entries_equal(a: &Vec<ParameterEntry>, b: &Vec<ParameterEntry>) -> (r: bool)
    ensures
        a@ == b@ ==> r,
        r ==> entry_kinds_match(a@, b@),
{
    if a.len() != b.len() {
        return false;
    }
    let mut i: usize = 0;
    while i < a.len()
        invariant
            i <= a@.len(),
            a@.len() == b@.len(),
            forall|k: int| 0 <= k < i ==> (a@[k] is Number) == (b@[k] is Number),
            a@ == b@ ==> forall|k: int| 0 <= k < a@.len() ==> a@[k] == b@[k],
        decreases a@.len() - i,
    {
        let same = match (&a[i], &b[i]) {
            (ParameterEntry::Number(x), ParameterEntry::Number(y)) => number_eq(x, y),
            (ParameterEntry::Expression, ParameterEntry::Expression) => true,
            _ => false,
        };
        if !same {
            return false;
        }
        i = i + 1;
    }
    true
}

fn parameters_equal(a: &ParameterContext, b: &ParameterContext) -> (r: bool)
    ensures
        parameters_view(a@) == parameters_view(b@) ==> r,
        r ==> parameters_match(a@, b@),
{
    if a.len() != b.len() {
        proof {
            assert(parameters_view(a@).len() != parameters_view(b@).len());
        }
        return false;
    }
    let mut i: usize = 0;
    while i < a.len()
        invariant
            i <= a@.len(),
            a@.len() == b@.len(),
            forall|k: int| 0 <= k < i ==> #[trigger] slot_match(a@[k], b@[k]),
        decreases a@.len() - i,
    {
        if !(a[i].0 == b[i].0 && usizes_equal(&a[i].1.lengths, &b[i].1.lengths) && entries_equal(
            &a[i].1.values,
            &b[i].1.values,
        )) {
            proof {
                if parameters_view(a@) == parameters_view(b@) {
                    assert(parameters_view(a@)[i as int] == parameters_view(b@)[i as int]);
                }
            }
            return false;
        }
        i = i + 1;
    }
    true
}

impl<Code, Cons> ExecutedTemplate<Code, Cons> {
    pub fn new(
        public: Vec<String>,
        name: String,
        report_name: String,
        instance: ParameterContext,
        code: Code,
        is_parallel: bool,
    ) -> (r: Self)
        requires
            parameters_wf(instance@),
        ensures
            r.public_inputs == public,
            r.template_name == name,
            r.report_name == report_name,
            r.parameter_instances == instance,
            r.code == code,
            r.is_parallel == is_parallel,
            !r.has_parallel_sub_cmp,
            r.inputs@.len() == 0,
            r.outputs@.len() == 0,
            r.intermediates@.len() == 0,
            r.components@.len() == 0,
            r.constraints@.len() == 0,
            r.connexions@.len() == 0,
    {
        ExecutedTemplate {
            report_name,
            public_inputs: public,
            is_parallel,
            has_parallel_sub_cmp: false,
            code,
            template_name: name,
            parameter_instances: instance,
            inputs: Vec::new(),
            outputs: Vec::new(),
            intermediates: Vec::new(),
            components: Vec::new(),
            constraints: Vec::new(),
            connexions: Vec::new(),
        }
    }

    /// Whether this is the instantiation of template `name` with parameters `context`.
    pub fn is_equal(&self, name: &str, context: &ParameterContext) -> (r: bool)
        ensures
            self.template_name@ == name@ && parameters_view(self.parameter_instances@)
                == parameters_view(context@) ==> r,
            r ==> self.template_name@ == name@ && parameters_match(
                self.parameter_instances@,
                context@,
            ),
    {
        let n = name.to_owned();
        self.template_name == n && parameters_equal(&self.parameter_instances, context)
    }

    pub fn add_arrow(&mut self, component_name: String, data: SubComponentData)
        ensures
            final(self).connexions@ == old(self).connexions@.push(
                (Connexion {
                    full_name: component_name,
                    inspect: data,
                    dag_offset: 0,
                    dag_component_offset: 0,
                    dag_jump: 0,
                    dag_component_jump: 0,
                }),
            ),
            *final(self) == (ExecutedTemplate { connexions: final(self).connexions, ..*old(self) }),
    {
        let cnn = Connexion {
            full_name: component_name,
            inspect: data,
            dag_offset: 0,
            dag_component_offset: 0,
            dag_jump: 0,
            dag_component_jump: 0,
        };
        self.connexions.push(cnn);
    }

    pub fn add_input(&mut self, input_name: &str, dimensions: &[usize])
        ensures
            decls_view(final(self).inputs@) == decls_view(old(self).inputs@).push(
                (input_name@, dimensions@),
            ),
            *final(self) == (ExecutedTemplate { inputs: final(self).inputs, ..*old(self) }),
    {
        let ghost before = self.inputs@;
        self.inputs.push((input_name.to_owned(), copy_dims(dimensions)));
        proof {
            assert(decls_view(self.inputs@) =~= decls_view(before).push((input_name@, dimensions@)));
        }
    }

    pub fn add_output(&mut self, output_name: &str, dimensions: &[usize])
        ensures
            decls_view(final(self).outputs@) == decls_view(old(self).outputs@).push(
                (output_name@, dimensions@),
            ),
            *final(self) == (ExecutedTemplate { outputs: final(self).outputs, ..*old(self) }),
    {
        let ghost before = self.outputs@;
        self.outputs.push((output_name.to_owned(), copy_dims(dimensions)));
        proof {
            assert(decls_view(self.outputs@) =~= decls_view(before).push(
                (output_name@, dimensions@),
            ));
        }
    }

    pub fn add_intermediate(&mut self, intermediate_name: &str, dimensions: &[usize])
        ensures
            decls_view(final(self).intermediates@) == decls_view(old(self).intermediates@).push(
                (intermediate_name@, dimensions@),
            ),
            *final(self) == (ExecutedTemplate { intermediates: final(self).intermediates, ..*old(self) }),
    {
        let ghost before = self.intermediates@;
        self.intermediates.push((intermediate_name.to_owned(), copy_dims(dimensions)));
        proof {
            assert(decls_view(self.intermediates@) =~= decls_view(before).push(
                (intermediate_name@, dimensions@),
            ));
        }
    }

    pub fn add_component(&mut self, component_name: &str, dimensions: &[usize])
        ensures
            decls_view(final(self).components@) == decls_view(old(self).components@).push(
                (component_name@, dimensions@),
            ),
            *final(self) == (ExecutedTemplate { components: final(self).components, ..*old(self) }),
    {
        let ghost before = self.components@;
        self.components.push((component_name.to_owned(), copy_dims(dimensions)));
        proof {
            assert(decls_view(self.components@) =~= decls_view(before).push(
                (component_name@, dimensions@),
            ));
        }
    }

    pub fn add_constraint(&mut self, constraint: Cons)
        ensures
            final(self).constraints@ == old(self).constraints@.push(constraint),
            *final(self) == (ExecutedTemplate { constraints: final(self).constraints, ..*old(self) }),
    {
        self.constraints.push(constraint);
    }

    pub fn template_name(&self) -> (r: &String)
        ensures
            *r == self.template_name,
    {
        &self.template_name
    }

    pub fn parameter_instances(&self) -> (r: &ParameterContext)
        ensures
            *r == self.parameter_instances,
    {
        &self.parameter_instances
    }

    pub fn inputs(&self) -> (r: &SignalCollector)
        ensures
            *r == self.inputs,
    {
        &self.inputs
    }

    pub fn outputs(&self) -> (r: &SignalCollector)
        ensures
            *r == self.outputs,
    {
        &self.outputs
    }

    pub fn intermediates(&self) -> (r: &SignalCollector)
        ensures
            *r == self.intermediates,
    {
        &self.intermediates
    }

    /// Puts the connexions in graph order (by array name, then index) and drops
    /// the declared sub-component arrays that no connexion uses.
    pub fn build_connexions(&mut self)
        ensures
            connexions_sorted(final(self).connexions@),
            final(self).connexions@.to_multiset() == old(self).connexions@.to_multiset(),
            forall|c: Connexion|
                #[trigger] with_key(final(self).connexions@, c) == with_key(old(self).connexions@, c),
            final(self).components@ == used_components(
                old(self).components@,
                final(self).connexions@,
            ),
            final(self).inputs == old(self).inputs,
            final(self).outputs == old(self).outputs,
            final(self).intermediates == old(self).intermediates,
            final(self).public_inputs == old(self).public_inputs,
    {
        sort_connexions(&mut self.connexions);
        let mut comps: ComponentCollector = Vec::new();
        std::mem::swap(&mut comps, &mut self.components);
        self.components = filter_used_components(comps, &self.connexions);
    }

    /// Records, for each connexion in order, the graph's signal and component
    /// counters before its edge was added (`counts[i]`) and the strides that
    /// the edge consumed (`counts[i + 1] - counts[i]`).
    pub fn record_offsets(&mut self, signal_counts: &Vec<usize>, component_counts: &Vec<usize>)
        requires
            signal_counts@.len() == old(self).connexions@.len() + 1,
            component_counts@.len() == old(self).connexions@.len() + 1,
            forall|i: int|
                0 <= i < old(self).connexions@.len() ==> #[trigger] signal_counts@[i]
                    <= signal_counts@[i + 1] && component_counts@[i] <= component_counts@[i + 1],
        ensures
            final(self).connexions@.len() == old(self).connexions@.len(),
            forall|i: int|
                0 <= i < final(self).connexions@.len() ==> {
                    let c = #[trigger] final(self).connexions@[i];
                    let o = old(self).connexions@[i];
                    &&& c.full_name == o.full_name
                    &&& c.inspect == o.inspect
                    &&& c.dag_offset == signal_counts@[i]
                    &&& c.dag_component_offset == component_counts@[i]
                    &&& c.dag_jump == signal_counts@[i + 1] - signal_counts@[i]
                    &&& c.dag_component_jump == component_counts@[i + 1] - component_counts@[i]
                },
            final(self).components == old(self).components,
            final(self).inputs == old(self).inputs,
            final(self).outputs == old(self).outputs,
            final(self).intermediates == old(self).intermediates,
            final(self).public_inputs == old(self).public_inputs,
    {
        let mut input: Vec<Connexion> = Vec::new();
        std::mem::swap(&mut input, &mut self.connexions);
        let ghost orig = input@;
        let ghost n = orig.len();
        let m = signal_counts.len();
        let mut i: usize = 0;
        while input.len() > 0
            invariant
                i <= n,
                n == orig.len(),
                input@ == orig.skip(i as int),
                self.connexions@.len() == i,
                signal_counts@.len() == n + 1,
                m == n + 1,
                component_counts@.len() == n + 1,
                forall|k: int|
                    0 <= k < n ==> #[trigger] signal_counts@[k] <= signal_counts@[k + 1]
                        && component_counts@[k] <= component_counts@[k + 1],
                forall|k: int|
                    0 <= k < i ==> {
                        let c = #[trigger] self.connexions@[k];
                        let o = orig[k];
                        &&& c.full_name == o.full_name
                        &&& c.inspect == o.inspect
                        &&& c.dag_offset == signal_counts@[k]
                        &&& c.dag_component_offset == component_counts@[k]
                        &&& c.dag_jump == signal_counts@[k + 1] - signal_counts@[k]
                        &&& c.dag_component_jump == component_counts@[k + 1]
                            - component_counts@[k]
                    },
                self.components == old(self).components,
                self.inputs == old(self).inputs,
                self.outputs == old(self).outputs,
                self.intermediates == old(self).intermediates,
                self.public_inputs == old(self).public_inputs,
            decreases input@.len(),
        {
            let cnn = input.remove(0);
            proof {
                assert(i < n);
                assert(cnn == orig[i as int]);
                assert(input@ =~= orig.skip(i + 1));
                assert(signal_counts@[i as int] <= signal_counts@[i + 1]);
            }
            let offset = signal_counts[i];
            let component_offset = component_counts[i];
            let updated = Connexion {
                full_name: cnn.full_name,
                inspect: cnn.inspect,
                dag_offset: offset,
                dag_component_offset: component_offset,
                dag_jump: signal_counts[i + 1] - offset,
                dag_component_jump: component_counts[i + 1] - component_offset,
            };
            self.connexions.push(updated);
            i = i + 1;
        }
    }

    /// The scalar signals of this instantiation, in the order in which they
    /// enter the dependency graph.
    pub fn build_signals(&self) -> (r: Vec<Registration>)
        ensures
            r@.map_values(|x: Registration| x@) == registration_plan(*self),
    {
        let mut out: Vec<Registration> = Vec::new();
        proof {
            assert(out@.map_values(|x: Registration| x@) =~= Seq::empty());
        }
        register_all(&mut out, &self.outputs, SignalType::Output, false);
        register_inputs(&mut out, &self.inputs, &self.public_inputs, true);
        register_inputs(&mut out, &self.inputs, &self.public_inputs, false);
        register_all(&mut out, &self.intermediates, SignalType::Intermediate, false);
        proof {
            assert(out@.map_values(|x: Registration| x@) =~= registration_plan(*self));
        }
        out
    }
}

/// The position of a scalar's category in the registration order.
pub open spec fn category_rank(e: (Seq<char>, SignalType, bool)) -> int {
    match e.1 {
        SignalType::Output => 0,
        SignalType::Input => if e.2 {
            1
        } else {
            2
        },
        SignalType::Intermediate => 3,
    }
}

pub proof fn lemma_expand_all_tags(
    decls: Seq<(Seq<char>, Seq<usize>)>,
    st: SignalType,
    public: bool,
    j: int,
)
    requires
        0 <= j < expand_all(decls, st, public).len(),
    ensures
        expand_all(decls, st, public)[j].1 == st,
        expand_all(decls, st, public)[j].2 == public,
    decreases decls.len(),
{
    if decls.len() > 0 {
        let a = expand_all(decls.drop_last(), st, public);
        if j < a.len() {
            lemma_expand_all_tags(decls.drop_last(), st, public, j);
        } else {
            lemma_expand_tags(decls.last().0, decls.last().1, st, public, j - a.len());
        }
    }
}

pub proof fn lemma_expand_inputs_tags(
    decls: Seq<(Seq<char>, Seq<usize>)>,
    publics: Seq<String>,
    public: bool,
    j: int,
)
    requires
        0 <= j < expand_inputs(decls, publics, public).len(),
    ensures
        expand_inputs(decls, publics, public)[j].1 == SignalType::Input,
        expand_inputs(decls, publics, public)[j].2 == public,
    decreases decls.len(),
{
    if decls.len() > 0 {
        let a = expand_inputs(decls.drop_last(), publics, public);
        if j < a.len() {
            lemma_expand_inputs_tags(decls.drop_last(), publics, public, j);
        } else {
            lemma_expand_tags(
                decls.last().0,
                decls.last().1,
                SignalType::Input,
                public,
                j - a.len(),
            );
        }
    }
}

/// Whatever the order of declaration, the dependency graph receives all
/// outputs, then the public inputs, then the private inputs, then the
/// intermediates.
pub proof fn lemma_registration_order<Code, Cons>(t: ExecutedTemplate<Code, Cons>, i: int, j: int)
    requires
        0 <= i < j < registration_plan(t).len(),
    ensures
        category_rank(registration_plan(t)[i]) <= category_rank(registration_plan(t)[j]),
{
    let a = expand_all(decls_view(t.outputs@), SignalType::Output, false);
    let b = expand_inputs(decls_view(t.inputs@), t.public_inputs@, true);
    let c = expand_inputs(decls_view(t.inputs@), t.public_inputs@, false);
    let d = expand_all(decls_view(t.intermediates@), SignalType::Intermediate, false);
    let plan = registration_plan(t);
    assert(plan == a + b + c + d);
    assert forall|k: int| 0 <= k < plan.len() implies category_rank(#[trigger] plan[k]) == if k
        < a.len() {
        0int
    } else if k < a.len() + b.len() {
        1int
    } else if k < a.len() + b.len() + c.len() {
        2int
    } else {
        3int
    } by {
        if k < a.len() {
            lemma_expand_all_tags(decls_view(t.outputs@), SignalType::Output, false, k);
        } else if k < a.len() + b.len() {
            lemma_expand_inputs_tags(decls_view(t.inputs@), t.public_inputs@, true, k - a.len());
        } else if k < a.len() + b.len() + c.len() {
            lemma_expand_inputs_tags(
                decls_view(t.inputs@),
                t.public_inputs@,
                false,
                k - a.len() - b.len(),
            );
        } else {
            lemma_expand_all_tags(
                decls_view(t.intermediates@),
                SignalType::Intermediate,
                false,
                k - a.len() - b.len() - c.len(),
            );
        }
    }
    assert(category_rank(plan[i]) <= category_rank(plan[j]));
}

/// The component catalogue kept by graph insertion holds exactly the declared
/// arrays that some connexion uses.
pub proof fn lemma_used_components(comps: Seq<(String, Vec<usize>)>, cs: Seq<Connexion>)
    ensures
        forall|i: int|
            0 <= i < used_components(comps, cs).len() ==> is_used(
                cs,
                #[trigger] used_components(comps, cs)[i].0@,
            ),
        forall|i: int|
            0 <= i < comps.len() && is_used(cs, #[trigger] comps[i].0@) ==> used_components(
                comps,
                cs,
            ).contains(comps[i]),
    decreases comps.len(),
{
    if comps.len() > 0 {
        lemma_used_components(comps.drop_last(), cs);
        let prev = used_components(comps.drop_last(), cs);
        let r = used_components(comps, cs);
        assert forall|i: int| 0 <= i < r.len() implies is_used(cs, #[trigger] r[i].0@) by {
            if i < prev.len() {
                assert(r[i] == prev[i]);
            }
        }
        assert forall|i: int| 0 <= i < comps.len() && is_used(cs, #[trigger] comps[i].0@) implies r.contains(
            comps[i],
        ) by {
            if i < comps.len() - 1 {
                assert(comps.drop_last()[i] == comps[i]);
                let k = choose|k: int| 0 <= k < prev.len() && prev[k] == comps[i];
                assert(r[k] == prev[k]);
            } else {
                assert(r[prev.len() as int] == comps[i]);
            }
        }
    }
}

} // verus!

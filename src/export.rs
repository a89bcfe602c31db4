use vstd::prelude::*;
use num_bigint_dig::BigInt;
use crate::executed_template::{
    contains_name, copy_dims, decls_view, expand_all, expand_inputs, is_used, names_contain,
    parameters_view, registration_plan, Connexion, ExecutedTemplate, ParameterContext,
    ParameterEntry, ParameterValue, SignalCollector,
};
use crate::lattice::{join, POS};
use crate::signals::{decimal, decimal_string, dims_product, lemma_expand_len, SignalType};

verus! {

/// A signal of an exported instance, with its offsets inside the instance.
pub struct Signal {
    pub name: String,
    pub lengths: Vec<usize>,
    pub local_id: usize,
    pub dag_local_id: usize,
    pub xtype: SignalType,
}

pub struct Trigger {
    pub offset: usize,
    pub component_offset: usize,
    pub component_name: String,
    pub indexed_with: Vec<usize>,
    pub runs: String,
    pub template_id: usize,
    pub external_signals: Vec<Signal>,
}

pub enum ClusterType {
    Mixed { tmp_name: String },
    Uniform { offset_jump: usize, component_offset_jump: usize, instance_id: usize, header: String },
}

/// The connexions `slice_start..slice_end` of one sub-component array.
pub struct TriggerCluster {
    pub slice_start: usize,
    pub slice_end: usize,
    pub length: usize,
    pub cmp_name: String,
    pub xtype: ClusterType,
}

pub struct Component {
    pub name: String,
    pub lengths: Vec<usize>,
}

pub struct Argument {
    pub name: String,
    pub lengths: Vec<usize>,
    pub values: Vec<BigInt>,
}

pub struct TemplateInstance<Code> {
    pub template_name: String,
    pub template_header: String,
    pub template_id: usize,
    pub code: Code,
    pub is_parallel: bool,
    pub has_parallel_sub_cmp: bool,
    pub clusters: Vec<TriggerCluster>,
    pub triggers: Vec<Trigger>,
    pub arguments: Vec<Argument>,
    pub components: Vec<Component>,
    pub signals: Vec<Signal>,
}

pub type SignalView = (Seq<char>, Seq<usize>, usize, usize, SignalType);

pub open spec fn signals_view(s: Seq<Signal>) -> Seq<SignalView> {
    s.map_values(|x: Signal| (x.name@, x.lengths@, x.local_id, x.dag_local_id, x.xtype))
}

/// The number of scalars in a signal of shape `lengths`.
pub open spec fn shape_size(lengths: Seq<usize>) -> nat
    decreases lengths.len(),
{
    if lengths.len() == 0 {
        1
    } else {
        shape_size(lengths.drop_last()) * (lengths.last() as nat)
    }
}

/// Computing the size of `lengths` from the left never leaves `usize`.
pub open spec fn shape_fits(lengths: Seq<usize>) -> bool {
    forall|k: int| 0 <= k <= lengths.len() ==> shape_size(#[trigger] lengths.take(k)) <= usize::MAX
}

impl Signal {
    pub fn size(&self) -> (r: usize)
        requires
            shape_fits(self.lengths@),
        ensures
            r == shape_size(self.lengths@),
    {
        let mut p: usize = 1;
        let mut i: usize = 0;
        proof {
            assert(self.lengths@.take(0) =~= Seq::<usize>::empty());
        }
        while i < self.lengths.len()
            invariant
                i <= self.lengths@.len(),
                shape_fits(self.lengths@),
                p == shape_size(self.lengths@.take(i as int)),
            decreases self.lengths@.len() - i,
        {
            proof {
                assert(self.lengths@.take(i + 1).drop_last() =~= self.lengths@.take(i as int));
                assert(shape_size(self.lengths@.take(i + 1)) <= usize::MAX);
            }
            p = p * self.lengths[i];
            i = i + 1;
        }
        proof {
            assert(self.lengths@.take(i as int) =~= self.lengths@);
        }
        p
    }

    pub fn duplicate(&self) -> (r: Signal)
        ensures
            (r.name@, r.lengths@, r.local_id, r.dag_local_id, r.xtype) == (
                self.name@,
                self.lengths@,
                self.local_id,
                self.dag_local_id,
                self.xtype,
            ),
    {
        Signal {
            name: self.name.clone(),
            lengths: copy_dims(self.lengths.as_slice()),
            local_id: self.local_id,
            dag_local_id: self.dag_local_id,
            xtype: self.xtype,
        }
    }
}

fn duplicate_signals(s: &Vec<Signal>) -> (r: Vec<Signal>)
    ensures
        signals_view(r@) == signals_view(s@),
{
    let mut r: Vec<Signal> = Vec::new();
    let mut i: usize = 0;
    while i < s.len()
        invariant
            i <= s@.len(),
            r@.len() == i,
            signals_view(r@) == signals_view(s@.take(i as int)),
        decreases s@.len() - i,
    {
        let x = s[i].duplicate();
        let ghost before = r@;
        r.push(x);
        proof {
            assert forall|k: int| 0 <= k < i + 1 implies signals_view(r@)[k] == signals_view(
                s@.take(i + 1),
            )[k] by {
                if k < i {
                    assert(r@[k] == before[k]);
                    assert(signals_view(before)[k] == signals_view(s@.take(i as int))[k]);
                }
            }
            assert(signals_view(r@) =~= signals_view(s@.take(i + 1)));
        }
        i = i + 1;
    }
    proof {
        assert(s@.take(i as int) =~= s@);
    }
    r
}

// ---- lattice analysis ----

/// What the connexions say of the array `n`: the join of the instantiations
/// that its elements are wired to.
pub open spec fn pos_of(cs: Seq<Connexion>, n: Seq<char>) -> POS
    decreases cs.len(),
{
    if cs.len() == 0 {
        POS::B
    } else if cs.last().inspect.name@ == n {
        join(pos_of(cs.drop_last(), n), POS::K(cs.last().inspect.goes_to))
    } else {
        pos_of(cs.drop_last(), n)
    }
}

pub fn apply_pos_to_connexions(cs: &Vec<Connexion>, name: &String) -> (r: POS)
    ensures
        r == pos_of(cs@, name@),
{
    let mut acc = POS::B;
    let mut i: usize = 0;
    proof {
        assert(cs@.take(0) =~= Seq::<Connexion>::empty());
    }
    while i < cs.len()
        invariant
            i <= cs@.len(),
            acc == pos_of(cs@.take(i as int), name@),
        decreases cs@.len() - i,
    {
        proof {
            assert(cs@.take(i + 1).drop_last() =~= cs@.take(i as int));
        }
        if cs[i].inspect.name == *name {
            acc = POS::least_upper_bound(acc, POS::K(cs[i].inspect.goes_to));
        }
        i = i + 1;
    }
    proof {
        assert(cs@.take(i as int) =~= cs@);
    }
    acc
}

/// For each declared sub-component array, whether its elements are wired to
/// different instantiations.
pub fn mixed_components<Code, Cons>(exec_tmp: &ExecutedTemplate<Code, Cons>) -> (r: Vec<bool>)
    ensures
        r@.len() == exec_tmp.components@.len(),
        forall|i: int|
            0 <= i < r@.len() ==> #[trigger] r@[i] == (pos_of(
                exec_tmp.connexions@,
                exec_tmp.components@[i].0@,
            ) == POS::T),
{
    let mut r: Vec<bool> = Vec::new();
    let mut i: usize = 0;
    while i < exec_tmp.components.len()
        invariant
            i <= exec_tmp.components@.len(),
            r@.len() == i,
            forall|k: int|
                0 <= k < i ==> #[trigger] r@[k] == (pos_of(
                    exec_tmp.connexions@,
                    exec_tmp.components@[k].0@,
                ) == POS::T),
        decreases exec_tmp.components@.len() - i,
    {
        let p = apply_pos_to_connexions(&exec_tmp.connexions, &exec_tmp.components[i].0);
        r.push(p.is_top());
        i = i + 1;
    }
    r
}

/// For each instantiation id below `no_templates`, whether some connexion
/// reaches it through an array whose elements are wired to different
/// instantiations.
pub fn templates_in_mixed_arrays<Code, Cons>(
    exec_tmp: &ExecutedTemplate<Code, Cons>,
    no_templates: usize,
) -> (r: Vec<bool>)
    requires
        forall|i: int|
            0 <= i < exec_tmp.connexions@.len() ==> #[trigger] exec_tmp.connexions@[i].inspect.goes_to
                < no_templates,
    ensures
        r@.len() == no_templates,
        forall|g: int|
            0 <= g < no_templates ==> #[trigger] r@[g] == exists|i: int|
                0 <= i < exec_tmp.connexions@.len() && exec_tmp.connexions@[i].inspect.goes_to == g
                    && pos_of(exec_tmp.connexions@, exec_tmp.connexions@[i].inspect.name@)
                    == POS::T,
{
    let ghost cs = exec_tmp.connexions@;
    let mut mixed: Vec<bool> = Vec::new();
    while mixed.len() < no_templates
        invariant
            mixed@.len() <= no_templates,
            forall|g: int| 0 <= g < mixed@.len() ==> !#[trigger] mixed@[g],
        decreases no_templates - mixed@.len(),
    {
        mixed.push(false);
    }
    let mut i: usize = 0;
    while i < exec_tmp.connexions.len()
        invariant
            i <= cs.len(),
            cs == exec_tmp.connexions@,
            mixed@.len() == no_templates,
            forall|k: int| 0 <= k < cs.len() ==> #[trigger] cs[k].inspect.goes_to < no_templates,
            forall|g: int|
                0 <= g < no_templates ==> #[trigger] mixed@[g] == exists|k: int|
                    0 <= k < i && cs[k].inspect.goes_to == g && pos_of(cs, cs[k].inspect.name@)
                        == POS::T,
        decreases cs.len() - i,
    {
        let target = exec_tmp.connexions[i].inspect.goes_to;
        let p = apply_pos_to_connexions(&exec_tmp.connexions, &exec_tmp.connexions[i].inspect.name);
        let ghost before = mixed@;
        if p.is_top() {
            mixed.set(target, true);
        }
        proof {
            assert forall|g: int| 0 <= g < no_templates implies #[trigger] mixed@[g] == exists|k: int|
                0 <= k < i + 1 && cs[k].inspect.goes_to == g && pos_of(cs, cs[k].inspect.name@)
                    == POS::T by {
                if g == target && p == POS::T {
                    assert(cs[i as int].inspect.goes_to == g);
                } else {
                    assert(mixed@[g] == before[g]);
                    if exists|k: int|
                        0 <= k < i + 1 && cs[k].inspect.goes_to == g && pos_of(
                            cs,
                            cs[k].inspect.name@,
                        ) == POS::T {
                        let k = choose|k: int|
                            0 <= k < i + 1 && cs[k].inspect.goes_to == g && pos_of(
                                cs,
                                cs[k].inspect.name@,
                            ) == POS::T;
                        assert(k < i);
                    }
                }
            }
        }
        i = i + 1;
    }
    mixed
}

// ---- clusters ----

/// The first connexion at or after `i` of the array `n` (or the end).
pub open spec fn first_from(cs: Seq<Connexion>, n: Seq<char>, i: nat) -> nat
    decreases cs.len() - i,
{
    if i >= cs.len() {
        i
    } else if cs[i as int].inspect.name@ == n {
        i
    } else {
        first_from(cs, n, i + 1)
    }
}

/// The end of the run of connexions of the array `n` that goes on at `i`.
pub open spec fn run_end(cs: Seq<Connexion>, n: Seq<char>, i: nat) -> nat
    decreases cs.len() - i,
{
    if i >= cs.len() {
        i
    } else if cs[i as int].inspect.name@ != n {
        i
    } else {
        run_end(cs, n, i + 1)
    }
}

/// The cluster of the array `n`: the run of its connexions, tagged from the
/// run's first element.
pub open spec fn cluster_of<Code>(
    cs: Seq<Connexion>,
    n: Seq<char>,
    mixed: bool,
    insts: Seq<TemplateInstance<Code>>,
) -> TriggerCluster {
    let s = first_from(cs, n, 0);
    let e = run_end(cs, n, s);
    let c = cs[s as int];
    let target = insts[c.inspect.goes_to as int];
    TriggerCluster {
        slice_start: s as usize,
        slice_end: e as usize,
        length: (e - s) as usize,
        cmp_name: c.inspect.name,
        xtype: if mixed {
            ClusterType::Mixed { tmp_name: target.template_name }
        } else {
            ClusterType::Uniform {
                offset_jump: c.dag_jump,
                component_offset_jump: c.dag_component_jump,
                instance_id: c.inspect.goes_to,
                header: target.template_header,
            }
        },
    }
}

pub open spec fn expected_clusters<Code>(
    comps: Seq<(String, Vec<usize>)>,
    cs: Seq<Connexion>,
    insts: Seq<TemplateInstance<Code>>,
) -> Seq<TriggerCluster> {
    Seq::new(
        comps.len(),
        |i: int| cluster_of(cs, comps[i].0@, pos_of(cs, comps[i].0@) == POS::T, insts),
    )
}

/// Every declared array has connexions, and every connexion reaches an exported instance.
pub open spec fn wiring_complete<Code, Cons>(
    tmp: ExecutedTemplate<Code, Cons>,
    insts: Seq<TemplateInstance<Code>>,
) -> bool {
    &&& forall|i: int|
        0 <= i < tmp.components@.len() ==> is_used(tmp.connexions@, #[trigger] tmp.components@[i].0@)
    &&& forall|i: int|
        0 <= i < tmp.connexions@.len() ==> #[trigger] tmp.connexions@[i].inspect.goes_to
            < insts.len()
}

pub fn build_clusters<Code, Cons>(
    tmp: &ExecutedTemplate<Code, Cons>,
    instances: &[TemplateInstance<Code>],
) -> (r: Vec<TriggerCluster>)
    requires
        wiring_complete(*tmp, instances@),
    ensures
        r@ == expected_clusters(tmp.components@, tmp.connexions@, instances@),
{
    let ghost cs = tmp.connexions@;
    let mixed = mixed_components(tmp);
    let mut result: Vec<TriggerCluster> = Vec::new();
    let mut index: usize = 0;
    while index < tmp.components.len()
        invariant
            index <= tmp.components@.len(),
            cs == tmp.connexions@,
            wiring_complete(*tmp, instances@),
            mixed@.len() == tmp.components@.len(),
            forall|i: int|
                0 <= i < mixed@.len() ==> #[trigger] mixed@[i] == (pos_of(
                    cs,
                    tmp.components@[i].0@,
                ) == POS::T),
            result@ =~= expected_clusters(tmp.components@, cs, instances@).take(index as int),
        decreases tmp.components@.len() - index,
    {
        let name = &tmp.components[index].0;
        let ghost n = name@;
        assert(is_used(cs, n));
        let mut start: usize = 0;
        while start < tmp.connexions.len() && tmp.connexions[start].inspect.name != *name
            invariant
                start <= cs.len(),
                cs == tmp.connexions@,
                name@ == n,
                first_from(cs, n, 0) == first_from(cs, n, start as nat),
                forall|k: int| 0 <= k < start ==> #[trigger] cs[k].inspect.name@ != n,
            decreases cs.len() - start,
        {
            start = start + 1;
        }
        let mut end: usize = start;
        while end < tmp.connexions.len() && tmp.connexions[end].inspect.name == *name
            invariant
                start <= end <= cs.len(),
                cs == tmp.connexions@,
                name@ == n,
                run_end(cs, n, start as nat) == run_end(cs, n, end as nat),
            decreases cs.len() - end,
        {
            end = end + 1;
        }
        let first = &tmp.connexions[start];
        let target = first.inspect.goes_to;
        let xtype = if mixed[index] {
            ClusterType::Mixed { tmp_name: instances[target].template_name.clone() }
        } else {
            ClusterType::Uniform {
                offset_jump: first.dag_jump,
                component_offset_jump: first.dag_component_jump,
                instance_id: target,
                header: instances[target].template_header.clone(),
            }
        };
        let cluster = TriggerCluster {
            slice_start: start,
            slice_end: end,
            length: end - start,
            cmp_name: first.inspect.name.clone(),
            xtype,
        };
        result.push(cluster);
        index = index + 1;
    }
    proof {
        assert(expected_clusters(tmp.components@, cs, instances@).take(index as int)
            =~= expected_clusters(tmp.components@, cs, instances@));
    }
    result
}

// ---- triggers, components, arguments ----

pub type TriggerView = (usize, usize, Seq<char>, Seq<usize>, Seq<char>, usize, Seq<SignalView>);

pub open spec fn triggers_view(t: Seq<Trigger>) -> Seq<TriggerView> {
    t.map_values(
        |x: Trigger|
            (
                x.offset,
                x.component_offset,
                x.component_name@,
                x.indexed_with@,
                x.runs@,
                x.template_id,
                signals_view(x.external_signals@),
            ),
    )
}

/// The trigger of one connexion: its offsets, and the header and signals of its target.
pub open spec fn expected_trigger<Code>(c: Connexion, insts: Seq<TemplateInstance<Code>>) -> TriggerView {
    let target = insts[c.inspect.goes_to as int];
    (
        c.dag_offset,
        c.dag_component_offset,
        c.inspect.name@,
        c.inspect.indexed_with@,
        target.template_header@,
        c.inspect.goes_to,
        signals_view(target.signals@),
    )
}

pub open spec fn expected_triggers<Code>(cs: Seq<Connexion>, insts: Seq<TemplateInstance<Code>>) -> Seq<
    TriggerView,
> {
    cs.map_values(|c: Connexion| expected_trigger(c, insts))
}

pub fn build_triggers<Code>(instances: &[TemplateInstance<Code>], connexions: Vec<Connexion>) -> (r:
    Vec<Trigger>)
    requires
        forall|i: int|
            0 <= i < connexions@.len() ==> #[trigger] connexions@[i].inspect.goes_to
                < instances@.len(),
    ensures
        triggers_view(r@) == expected_triggers(connexions@, instances@),
{
    let ghost orig = connexions@;
    let mut connexions = connexions;
    let mut triggers: Vec<Trigger> = Vec::new();
    let ghost mut k: int = 0;
    while connexions.len() > 0
        invariant
            0 <= k <= orig.len(),
            connexions@ == orig.skip(k),
            triggers@.len() == k,
            forall|i: int| 0 <= i < orig.len() ==> #[trigger] orig[i].inspect.goes_to < instances@.len(),
            triggers_view(triggers@) == expected_triggers(orig.take(k), instances@),
        decreases connexions@.len(),
    {
        let cnn = connexions.remove(0);
        proof {
            assert(cnn == orig[k]);
        }
        let data = cnn.inspect;
        let trigger = Trigger {
            offset: cnn.dag_offset,
            component_offset: cnn.dag_component_offset,
            component_name: data.name,
            indexed_with: data.indexed_with,
            runs: instances[data.goes_to].template_header.clone(),
            template_id: data.goes_to,
            external_signals: duplicate_signals(&instances[data.goes_to].signals),
        };
        let ghost before = triggers@;
        triggers.push(trigger);
        proof {
            assert forall|m: int| 0 <= m < k + 1 implies triggers_view(triggers@)[m]
                == expected_triggers(orig.take(k + 1), instances@)[m] by {
                if m < k {
                    assert(triggers@[m] == before[m]);
                    assert(triggers_view(before)[m] == expected_triggers(orig.take(k), instances@)[m]);
                }
            }
            assert(triggers_view(triggers@) =~= expected_triggers(orig.take(k + 1), instances@));
            assert(connexions@ =~= orig.skip(k + 1));
            k = k + 1;
        }
    }
    proof {
        assert(orig.take(k) =~= orig);
    }
    triggers
}

pub open spec fn components_view(c: Seq<Component>) -> Seq<(Seq<char>, Seq<usize>)> {
    c.map_values(|x: Component| (x.name@, x.lengths@))
}

pub fn build_components(components: SignalCollector) -> (r: Vec<Component>)
    ensures
        components_view(r@) == decls_view(components@),
{
    let ghost orig = components@;
    let mut components = components;
    let mut cmp: Vec<Component> = Vec::new();
    let ghost mut k: int = 0;
    while components.len() > 0
        invariant
            0 <= k <= orig.len(),
            components@ == orig.skip(k),
            cmp@.len() == k,
            components_view(cmp@) == decls_view(orig.take(k)),
        decreases components@.len(),
    {
        let (name, lengths) = components.remove(0);
        proof {
            assert((name, lengths) == orig[k]);
        }
        let ghost before = cmp@;
        cmp.push(Component { name, lengths });
        proof {
            assert forall|m: int| 0 <= m < k + 1 implies components_view(cmp@)[m] == decls_view(
                orig.take(k + 1),
            )[m] by {
                if m < k {
                    assert(cmp@[m] == before[m]);
                    assert(components_view(before)[m] == decls_view(orig.take(k))[m]);
                }
            }
            assert(components_view(cmp@) =~= decls_view(orig.take(k + 1)));
            assert(components@ =~= orig.skip(k + 1));
            k = k + 1;
        }
    }
    proof {
        assert(orig.take(k) =~= orig);
    }
    cmp
}

/// The numbers among a parameter's entries, in order; other entries are left out.
pub open spec fn numbers_of(e: Seq<ParameterEntry>) -> Seq<BigInt>
    decreases e.len(),
{
    if e.len() == 0 {
        seq![]
    } else {
        numbers_of(e.drop_last()) + match e.last() {
            ParameterEntry::Number(v) => seq![v],
            ParameterEntry::Expression => seq![],
        }
    }
}

pub fn as_big_int(exprs: Vec<ParameterEntry>) -> (r: Vec<BigInt>)
    ensures
        r@ == numbers_of(exprs@),
{
    let ghost orig = exprs@;
    let mut exprs = exprs;
    let mut numbers: Vec<BigInt> = Vec::new();
    let ghost mut k: int = 0;
    while exprs.len() > 0
        invariant
            0 <= k <= orig.len(),
            exprs@ == orig.skip(k),
            numbers@ == numbers_of(orig.take(k)),
        decreases exprs@.len(),
    {
        let e = exprs.remove(0);
        proof {
            assert(e == orig[k]);
            assert(orig.take(k + 1).drop_last() =~= orig.take(k));
        }
        match e {
            ParameterEntry::Number(value) => {
                numbers.push(value);
            },
            ParameterEntry::Expression => {},
        }
        proof {
            assert(numbers@ =~= numbers_of(orig.take(k + 1)));
            assert(exprs@ =~= orig.skip(k + 1));
            k = k + 1;
        }
    }
    proof {
        assert(orig.take(k) =~= orig);
    }
    numbers
}

pub type ArgumentView = (Seq<char>, Seq<usize>, Seq<BigInt>);

pub open spec fn arguments_view(a: Seq<Argument>) -> Seq<ArgumentView> {
    a.map_values(|x: Argument| (x.name@, x.lengths@, x.values@))
}

/// One argument per parameter: its name, its shape and the numbers among its values.
pub open spec fn expected_arguments(p: Seq<(String, ParameterValue)>) -> Seq<
    ArgumentView,
> {
    parameters_view(p).map_values(
        |e: (Seq<char>, Seq<usize>, Seq<ParameterEntry>)| (e.0, e.1, numbers_of(e.2)),
    )
}

pub fn build_arguments(parameter_instances: ParameterContext) -> (r: Vec<Argument>)
    ensures
        arguments_view(r@) == expected_arguments(parameter_instances@),
{
    let ghost orig = parameter_instances@;
    let mut params = parameter_instances;
    let mut arguments: Vec<Argument> = Vec::new();
    let ghost mut k: int = 0;
    while params.len() > 0
        invariant
            0 <= k <= orig.len(),
            params@ == orig.skip(k),
            arguments@.len() == k,
            arguments_view(arguments@) == expected_arguments(orig.take(k)),
        decreases params@.len(),
    {
        let (name, data) = params.remove(0);
        proof {
            assert((name, data) == orig[k]);
        }
        let argument = Argument { name, lengths: data.lengths, values: as_big_int(data.values) };
        let ghost before = arguments@;
        arguments.push(argument);
        proof {
            assert forall|m: int| 0 <= m < k + 1 implies arguments_view(arguments@)[m]
                == expected_arguments(orig.take(k + 1))[m] by {
                if m < k {
                    assert(arguments@[m] == before[m]);
                    assert(arguments_view(before)[m] == expected_arguments(orig.take(k))[m]);
                }
            }
            assert(arguments_view(arguments@) =~= expected_arguments(orig.take(k + 1)));
            assert(params@ =~= orig.skip(k + 1));
            k = k + 1;
        }
    }
    proof {
        assert(orig.take(k) =~= orig);
    }
    arguments
}

// ---- signal numbering ----

/// The inputs whose visibility is `public`, in declaration order.
pub open spec fn select_inputs(
    decls: Seq<(Seq<char>, Seq<usize>)>,
    publics: Seq<String>,
    public: bool,
) -> Seq<(Seq<char>, Seq<usize>)>
    decreases decls.len(),
{
    if decls.len() == 0 {
        seq![]
    } else {
        select_inputs(decls.drop_last(), publics, public) + if names_contain(
            publics,
            decls.last().0,
        ) == public {
            seq![decls.last()]
        } else {
            seq![]
        }
    }
}

pub type Declaration = (Seq<char>, Seq<usize>, SignalType);

pub open spec fn tagged(d: Seq<(Seq<char>, Seq<usize>)>, st: SignalType) -> Seq<Declaration> {
    d.map_values(|e: (Seq<char>, Seq<usize>)| (e.0, e.1, st))
}

/// An instantiation's signal declarations in numbering order: outputs, public
/// inputs, private inputs, intermediates.
pub open spec fn ordered_decls<Code, Cons>(t: ExecutedTemplate<Code, Cons>) -> Seq<Declaration> {
    tagged(decls_view(t.outputs@), SignalType::Output) + tagged(
        select_inputs(decls_view(t.inputs@), t.public_inputs@, true),
        SignalType::Input,
    ) + tagged(select_inputs(decls_view(t.inputs@), t.public_inputs@, false), SignalType::Input)
        + tagged(decls_view(t.intermediates@), SignalType::Intermediate)
}

/// The number of scalars in a list of declarations.
pub open spec fn total_size(d: Seq<Declaration>) -> nat
    decreases d.len(),
{
    if d.len() == 0 {
        0
    } else {
        total_size(d.drop_last()) + shape_size(d.last().1)
    }
}

/// Declaration `i` starts at the number of scalars declared before it
/// (`local_id`), and one further on in the graph-wide scheme (`dag_local_id`).
pub open spec fn numbered(d: Seq<Declaration>) -> Seq<SignalView> {
    Seq::new(
        d.len(),
        |i: int|
            (
                d[i].0,
                d[i].1,
                total_size(d.take(i)) as usize,
                (total_size(d.take(i)) + 1) as usize,
                d[i].2,
            ),
    )
}

pub open spec fn expected_signals<Code, Cons>(t: ExecutedTemplate<Code, Cons>) -> Seq<SignalView> {
    numbered(ordered_decls(t))
}

/// The sizes and ids of an instantiation's signals fit in `usize`.
pub open spec fn signals_fit<Code, Cons>(t: ExecutedTemplate<Code, Cons>) -> bool {
    &&& total_size(ordered_decls(t)) < usize::MAX
    &&& forall|i: int|
        0 <= i < ordered_decls(t).len() ==> shape_fits(#[trigger] ordered_decls(t)[i].1)
}

pub proof fn lemma_total_size_prefix(d: Seq<Declaration>, i: int)
    requires
        0 <= i <= d.len(),
    ensures
        total_size(d.take(i)) <= total_size(d),
    decreases d.len(),
{
    if i < d.len() {
        assert(d.drop_last().take(i) =~= d.take(i));
        lemma_total_size_prefix(d.drop_last(), i);
    } else {
        assert(d.take(i) =~= d);
    }
}

fn partition_inputs(inputs: SignalCollector, publics: &Vec<String>) -> (r: (
    SignalCollector,
    SignalCollector,
))
    ensures
        decls_view(r.0@) == select_inputs(decls_view(inputs@), publics@, true),
        decls_view(r.1@) == select_inputs(decls_view(inputs@), publics@, false),
{
    let ghost orig = inputs@;
    let mut inputs = inputs;
    let mut public: SignalCollector = Vec::new();
    let mut not_public: SignalCollector = Vec::new();
    let ghost mut k: int = 0;
    while inputs.len() > 0
        invariant
            0 <= k <= orig.len(),
            inputs@ == orig.skip(k),
            decls_view(public@) == select_inputs(decls_view(orig.take(k)), publics@, true),
            decls_view(not_public@) == select_inputs(decls_view(orig.take(k)), publics@, false),
        decreases inputs@.len(),
    {
        let s = inputs.remove(0);
        proof {
            assert(s == orig[k]);
            assert(decls_view(orig.take(k + 1)).drop_last() =~= decls_view(orig.take(k)));
        }
        let ghost p0 = public@;
        let ghost p1 = not_public@;
        if contains_name(publics, &s.0) {
            public.push(s);
        } else {
            not_public.push(s);
        }
        proof {
            assert(decls_view(public@) =~= select_inputs(
                decls_view(orig.take(k + 1)),
                publics@,
                true,
            ));
            assert(decls_view(not_public@) =~= select_inputs(
                decls_view(orig.take(k + 1)),
                publics@,
                false,
            ));
            assert(inputs@ =~= orig.skip(k + 1));
            k = k + 1;
        }
    }
    proof {
        assert(orig.take(k) =~= orig);
    }
    (public, not_public)
}

pub open spec fn declarations_view(d: Seq<(String, Vec<usize>, SignalType)>) -> Seq<Declaration> {
    d.map_values(|e: (String, Vec<usize>, SignalType)| (e.0@, e.1@, e.2))
}

fn append_tagged(
    all: &mut Vec<(String, Vec<usize>, SignalType)>,
    decls: SignalCollector,
    st: SignalType,
)
    ensures
        declarations_view(final(all)@) == declarations_view(old(all)@) + tagged(
            decls_view(decls@),
            st,
        ),
{
    let ghost orig = decls@;
    let ghost start = declarations_view(all@);
    let mut decls = decls;
    let ghost mut k: int = 0;
    proof {
        assert(declarations_view(all@) =~= start + tagged(decls_view(orig.take(0)), st));
    }
    while decls.len() > 0
        invariant
            0 <= k <= orig.len(),
            decls@ == orig.skip(k),
            all@.len() == start.len() + k,
            declarations_view(all@) == start + tagged(decls_view(orig.take(k)), st),
        decreases decls@.len(),
    {
        let (name, lengths) = decls.remove(0);
        proof {
            assert((name, lengths) == orig[k]);
        }
        let ghost b = all@;
        all.push((name, lengths, st));
        proof {
            let target = start + tagged(decls_view(orig.take(k + 1)), st);
            assert forall|m: int| 0 <= m < all@.len() implies declarations_view(all@)[m]
                == target[m] by {
                if m < b.len() {
                    assert(all@[m] == b[m]);
                    assert(declarations_view(b)[m] == (start + tagged(
                        decls_view(orig.take(k)),
                        st,
                    ))[m]);
                }
            }
            assert(declarations_view(all@) =~= start + tagged(decls_view(orig.take(k + 1)), st));
            assert(decls@ =~= orig.skip(k + 1));
            k = k + 1;
        }
    }
    proof {
        assert(orig.take(k) =~= orig);
    }
}

fn number_signals(all: Vec<(String, Vec<usize>, SignalType)>) -> (r: Vec<Signal>)
    requires
        total_size(declarations_view(all@)) < usize::MAX,
        forall|i: int|
            0 <= i < all@.len() ==> shape_fits(#[trigger] declarations_view(all@)[i].1),
    ensures
        signals_view(r@) == numbered(declarations_view(all@)),
{
    let ghost d = declarations_view(all@);
    let ghost orig = all@;
    let mut all = all;
    let mut signals: Vec<Signal> = Vec::new();
    let mut local_id: usize = 0;
    let ghost mut k: int = 0;
    proof {
        assert(d.take(0) =~= Seq::<Declaration>::empty());
    }
    while all.len() > 0
        invariant
            0 <= k <= orig.len(),
            d == declarations_view(orig),
            d.len() == orig.len(),
            total_size(d) < usize::MAX,
            forall|i: int| 0 <= i < d.len() ==> shape_fits(#[trigger] d[i].1),
            all@ == orig.skip(k),
            signals@.len() == k,
            local_id == total_size(d.take(k)),
            signals_view(signals@) == numbered(d).take(k),
        decreases all@.len(),
    {
        let (name, lengths, xtype) = all.remove(0);
        proof {
            assert((name, lengths, xtype) == orig[k]);
            assert(d[k] == (name@, lengths@, xtype));
            assert(d.take(k + 1).drop_last() =~= d.take(k));
            lemma_total_size_prefix(d, k + 1);
        }
        let signal = Signal { name, lengths, local_id, dag_local_id: local_id + 1, xtype };
        let size = signal.size();
        let ghost before = signals@;
        signals.push(signal);
        local_id = local_id + size;
        proof {
            assert forall|m: int| 0 <= m < k + 1 implies signals_view(signals@)[m] == numbered(
                d,
            ).take(k + 1)[m] by {
                if m < k {
                    assert(signals@[m] == before[m]);
                    assert(signals_view(before)[m] == numbered(d).take(k)[m]);
                }
            }
            assert(signals_view(signals@) =~= numbered(d).take(k + 1));
            assert(all@ =~= orig.skip(k + 1));
            k = k + 1;
        }
    }
    proof {
        assert(numbered(d).take(k) =~= numbered(d));
    }
    signals
}

// ---- export ----

/// `name_count`: the header of the instance exported after `count` others.
pub open spec fn header_of(name: Seq<char>, count: nat) -> Seq<char> {
    name + seq!['_'] + decimal(count)
}

/// What exporting `t` after the instances `insts` produces.
pub open spec fn export_post<Code, Cons>(
    t: ExecutedTemplate<Code, Cons>,
    insts: Seq<TemplateInstance<Code>>,
    r: TemplateInstance<Code>,
) -> bool {
    &&& r.template_header@ == header_of(t.template_name@, insts.len())
    &&& r.template_id == insts.len()
    &&& r.template_name == t.template_name
    &&& r.code == t.code
    &&& r.is_parallel == t.is_parallel
    &&& r.has_parallel_sub_cmp == t.has_parallel_sub_cmp
    &&& r.clusters@ == expected_clusters(t.components@, t.connexions@, insts)
    &&& triggers_view(r.triggers@) == expected_triggers(t.connexions@, insts)
    &&& components_view(r.components@) == decls_view(t.components@)
    &&& arguments_view(r.arguments@) == expected_arguments(t.parameter_instances@)
    &&& signals_view(r.signals@) == expected_signals(t)
}

impl<Code, Cons> ExecutedTemplate<Code, Cons> {
    /// Turns this instantiation into the instance numbered after `instances`.
    pub fn export_to_circuit(self, instances: &[TemplateInstance<Code>]) -> (r: TemplateInstance<
        Code,
    >)
        requires
            wiring_complete(self, instances@),
            signals_fit(self),
        ensures
            export_post(self, instances@, r),
    {
        let ghost t = self;
        proof {
            reveal_strlit("_");
        }
        let header = self.template_name.clone().concat("_").concat(
            decimal_string(instances.len()).as_str(),
        );
        let clusters = build_clusters(&self, instances);
        let ExecutedTemplate {
            code,
            template_name,
            inputs,
            outputs,
            intermediates,
            components,
            public_inputs,
            parameter_instances,
            is_parallel,
            has_parallel_sub_cmp,
            connexions,
            ..
        } = self;
        let triggers = build_triggers(instances, connexions);
        let components = build_components(components);
        let arguments = build_arguments(parameter_instances);
        let (public, not_public) = partition_inputs(inputs, &public_inputs);
        let mut all: Vec<(String, Vec<usize>, SignalType)> = Vec::new();
        proof {
            assert(declarations_view(all@) =~= Seq::<Declaration>::empty());
        }
        append_tagged(&mut all, outputs, SignalType::Output);
        append_tagged(&mut all, public, SignalType::Input);
        append_tagged(&mut all, not_public, SignalType::Input);
        append_tagged(&mut all, intermediates, SignalType::Intermediate);
        proof {
            assert(declarations_view(all@) =~= ordered_decls(t));
        }
        let signals = number_signals(all);
        let r = TemplateInstance {
            template_name,
            template_header: header,
            template_id: instances.len(),
            code,
            is_parallel,
            has_parallel_sub_cmp,
            clusters,
            triggers,
            arguments,
            components,
            signals,
        };
        proof {
            assert(r.template_header@ =~= header_of(t.template_name@, instances@.len()));
        }
        r
    }
}

/// Exporting the same instantiation twice gives the same signals, arguments
/// and components; the same triggers and clusters against the same exported
/// instances; and a header and id that depend on the number of those
/// instances alone.
pub proof fn lemma_export_deterministic<Code, Cons>(
    t: ExecutedTemplate<Code, Cons>,
    insts1: Seq<TemplateInstance<Code>>,
    insts2: Seq<TemplateInstance<Code>>,
    r1: TemplateInstance<Code>,
    r2: TemplateInstance<Code>,
)
    requires
        export_post(t, insts1, r1),
        export_post(t, insts2, r2),
    ensures
        signals_view(r1.signals@) == signals_view(r2.signals@),
        arguments_view(r1.arguments@) == arguments_view(r2.arguments@),
        components_view(r1.components@) == components_view(r2.components@),
        insts1 == insts2 ==> triggers_view(r1.triggers@) == triggers_view(r2.triggers@)
            && r1.clusters@ == r2.clusters@,
        insts1.len() == insts2.len() <==> r1.template_id == r2.template_id,
        insts1.len() == insts2.len() ==> r1.template_header@ == r2.template_header@,
{
}

// ---- registration and numbering agree ----

pub proof fn lemma_product_agree(d: Seq<usize>)
    ensures
        dims_product(d) == shape_size(d),
    decreases d.len(),
{
    if d.len() == 1 {
        assert(d.drop_first().len() == 0);
        assert(d.drop_last().len() == 0);
        assert(d.last() == d[0]);
        assert(dims_product(d.drop_first()) == 1);
        assert(shape_size(d.drop_last()) == 1);
        assert(dims_product(d) == (d[0] as nat) * 1);
        assert(shape_size(d) == 1 * (d[0] as nat));
    } else if d.len() > 1 {
        lemma_product_agree(d.drop_first());
        lemma_product_agree(d.drop_last());
        lemma_product_agree(d.drop_first().drop_last());
        lemma_product_agree(d.drop_last().drop_first());
        assert(d.drop_last().drop_first() =~= d.drop_first().drop_last());
        assert(d.drop_first().last() == d.last());
        assert(d.drop_last()[0] == d[0]);
        let a = d[0] as nat;
        let b = d.last() as nat;
        let m = dims_product(d.drop_first().drop_last());
        assert(a * (m * b) == (a * m) * b) by (nonlinear_arith);
        assert(dims_product(d) == a * dims_product(d.drop_first()));
        assert(shape_size(d.drop_first()) == shape_size(d.drop_first().drop_last()) * b);
        assert(shape_size(d) == shape_size(d.drop_last()) * b);
        assert(dims_product(d.drop_last()) == a * dims_product(d.drop_last().drop_first()));
    }
}

pub proof fn lemma_total_size_concat(a: Seq<Declaration>, b: Seq<Declaration>)
    ensures
        total_size(a + b) == total_size(a) + total_size(b),
    decreases b.len(),
{
    if b.len() == 0 {
        assert(a + b =~= a);
    } else {
        assert((a + b).drop_last() =~= a + b.drop_last());
        lemma_total_size_concat(a, b.drop_last());
    }
}

pub proof fn lemma_expand_inputs_selected(
    decls: Seq<(Seq<char>, Seq<usize>)>,
    publics: Seq<String>,
    public: bool,
)
    ensures
        expand_inputs(decls, publics, public) == expand_all(
            select_inputs(decls, publics, public),
            SignalType::Input,
            public,
        ),
    decreases decls.len(),
{
    if decls.len() > 0 {
        lemma_expand_inputs_selected(decls.drop_last(), publics, public);
        let prev = select_inputs(decls.drop_last(), publics, public);
        if names_contain(publics, decls.last().0) == public {
            assert((prev + seq![decls.last()]).drop_last() =~= prev);
        } else {
            assert(prev + seq![] =~= prev);
            assert(expand_inputs(decls, publics, public) =~= expand_inputs(
                decls.drop_last(),
                publics,
                public,
            ));
        }
    }
}

pub proof fn lemma_expand_all_len(
    ds: Seq<(Seq<char>, Seq<usize>)>,
    st: SignalType,
    public: bool,
    tag: SignalType,
)
    ensures
        expand_all(ds, st, public).len() == total_size(tagged(ds, tag)),
    decreases ds.len(),
{
    if ds.len() > 0 {
        lemma_expand_all_len(ds.drop_last(), st, public, tag);
        assert(tagged(ds, tag).drop_last() =~= tagged(ds.drop_last(), tag));
        lemma_expand_len(ds.last().0, ds.last().1, st, public);
        lemma_product_agree(ds.last().1);
    }
}

/// The graph receives as many scalar signals as the numbering of the exported
/// instance counts: the strides of the two schemes add up to the same total.
pub proof fn lemma_registration_count<Code, Cons>(t: ExecutedTemplate<Code, Cons>)
    ensures
        registration_plan(t).len() == total_size(ordered_decls(t)),
{
    let o = decls_view(t.outputs@);
    let sp = select_inputs(decls_view(t.inputs@), t.public_inputs@, true);
    let sn = select_inputs(decls_view(t.inputs@), t.public_inputs@, false);
    let m = decls_view(t.intermediates@);
    lemma_expand_inputs_selected(decls_view(t.inputs@), t.public_inputs@, true);
    lemma_expand_inputs_selected(decls_view(t.inputs@), t.public_inputs@, false);
    lemma_expand_all_len(o, SignalType::Output, false, SignalType::Output);
    lemma_expand_all_len(sp, SignalType::Input, true, SignalType::Input);
    lemma_expand_all_len(sn, SignalType::Input, false, SignalType::Input);
    lemma_expand_all_len(m, SignalType::Intermediate, false, SignalType::Intermediate);
    let to = tagged(o, SignalType::Output);
    let tp = tagged(sp, SignalType::Input);
    let tn = tagged(sn, SignalType::Input);
    let tm = tagged(m, SignalType::Intermediate);
    lemma_total_size_concat(to, tp);
    lemma_total_size_concat(to + tp, tn);
    lemma_total_size_concat(to + tp + tn, tm);
}

/// Numbering is contiguous: the first signal starts at local id 0, each next
/// one starts where the previous one ends, and the graph-wide id is always the
/// local id plus one.
pub proof fn lemma_numbering_contiguous(d: Seq<Declaration>, i: int)
    requires
        total_size(d) < usize::MAX,
        0 <= i < d.len(),
    ensures
        numbered(d)[0].2 == 0,
        numbered(d)[i].3 == numbered(d)[i].2 + 1,
        i + 1 < d.len() ==> numbered(d)[i + 1].2 == numbered(d)[i].2 + shape_size(d[i].1),
{
    assert(d.take(0).len() == 0);
    lemma_total_size_prefix(d, i);
    if i + 1 < d.len() {
        lemma_total_size_prefix(d, i + 1);
        assert(d.take(i + 1).drop_last() =~= d.take(i));
    }
}

pub open spec fn named(cs: Seq<Connexion>, n: Seq<char>) -> bool {
    exists|i: int| 0 <= i < cs.len() && (#[trigger] cs[i]).inspect.name@ == n
}

pub open spec fn uniform_to(cs: Seq<Connexion>, n: Seq<char>, g: usize) -> bool {
    forall|i: int| 0 <= i < cs.len() && (#[trigger] cs[i]).inspect.name@ == n ==> cs[i].inspect.goes_to == g
}

/// The verdict on an array is `B` when no connexion names it, `K(g)` when all
/// of its connexions go to `g`, and `T` otherwise.
pub proof fn lemma_pos_of_verdict(cs: Seq<Connexion>, n: Seq<char>)
    ensures
        (pos_of(cs, n) == POS::B) == !named(cs, n),
        forall|g: usize| #![trigger uniform_to(cs, n, g)] (pos_of(cs, n) == POS::K(g)) == (named(cs, n) && uniform_to(cs, n, g)),
        (pos_of(cs, n) == POS::T) == (named(cs, n) && forall|g: usize| !uniform_to(cs, n, g)),
    decreases cs.len(),
{
    if cs.len() == 0 {
        return;
    }
    let s = cs.drop_last();
    let l = cs.last();
    let last = cs.len() - 1;
    lemma_pos_of_verdict(s, n);
    assert(forall|i: int| 0 <= i < s.len() ==> s[i] == cs[i]);
    assert(cs[last] == l);
    if l.inspect.name@ != n {
        assert(named(cs, n) == named(s, n)) by {
            if named(cs, n) {
                let i = choose|i: int| 0 <= i < cs.len() && (#[trigger] cs[i]).inspect.name@ == n;
                assert(s[i] == cs[i]);
            }
            if named(s, n) {
                let i = choose|i: int| 0 <= i < s.len() && (#[trigger] s[i]).inspect.name@ == n;
                assert(s[i] == cs[i]);
            }
        }
        assert forall|g: usize| uniform_to(cs, n, g) == uniform_to(s, n, g) by {
            if uniform_to(s, n, g) {
                assert forall|i: int| 0 <= i < cs.len() && (#[trigger] cs[i]).inspect.name@ == n implies cs[i].inspect.goes_to == g by {
                    assert(i < last);
                    assert(s[i] == cs[i]);
                }
            }
            if uniform_to(cs, n, g) {
                assert forall|i: int| 0 <= i < s.len() && (#[trigger] s[i]).inspect.name@ == n implies s[i].inspect.goes_to == g by {
                    assert(s[i] == cs[i]);
                }
            }
        }
    } else {
        let h = l.inspect.goes_to;
        assert(named(cs, n)) by {
            assert(cs[last].inspect.name@ == n);
        }
        assert forall|g: usize| uniform_to(cs, n, g) == (uniform_to(s, n, g) && g == h) by {
            if uniform_to(cs, n, g) {
                assert(cs[last].inspect.name@ == n);
                assert forall|i: int| 0 <= i < s.len() && (#[trigger] s[i]).inspect.name@ == n implies s[i].inspect.goes_to == g by {
                    assert(s[i] == cs[i]);
                }
            }
            if uniform_to(s, n, g) && g == h {
                assert forall|i: int| 0 <= i < cs.len() && (#[trigger] cs[i]).inspect.name@ == n implies cs[i].inspect.goes_to == g by {
                    if i < last {
                        assert(s[i] == cs[i]);
                    }
                }
            }
        }
        if !named(s, n) {
            assert(uniform_to(s, n, h)) by {
                assert forall|i: int| 0 <= i < s.len() && (#[trigger] s[i]).inspect.name@ == n implies s[i].inspect.goes_to == h by {
                    assert(named(s, n));
                }
            }
            assert(uniform_to(cs, n, h));
        } else if pos_of(s, n) is K {
            let g0 = pos_of(s, n)->K_0;
            assert(uniform_to(s, n, g0));
            assert forall|g: usize| uniform_to(s, n, g) implies g == g0 by {
                let i = choose|i: int| 0 <= i < s.len() && (#[trigger] s[i]).inspect.name@ == n;
                assert(s[i].inspect.goes_to == g && s[i].inspect.goes_to == g0);
            }
            if g0 == h {
                assert(uniform_to(cs, n, h));
            }
        }
    }
}

/// The verdict on an array does not depend on the order of the connexions:
/// any rearrangement of them gives the same one.
pub proof fn lemma_pos_of_order_free(a: Seq<Connexion>, b: Seq<Connexion>, n: Seq<char>)
    requires
        a.to_multiset() == b.to_multiset(),
    ensures
        pos_of(a, n) == pos_of(b, n),
{
    lemma_pos_of_verdict(a, n);
    lemma_pos_of_verdict(b, n);
    assert forall|x: Connexion| a.contains(x) == b.contains(x) by {
        vstd::seq_lib::to_multiset_contains(a, x);
        vstd::seq_lib::to_multiset_contains(b, x);
    }
    assert(named(a, n) == named(b, n)) by {
        if named(a, n) {
            let i = choose|i: int| 0 <= i < a.len() && (#[trigger] a[i]).inspect.name@ == n;
            assert(a.contains(a[i]));
            let j = choose|j: int| 0 <= j < b.len() && b[j] == a[i];
            assert(b[j].inspect.name@ == n);
        }
        if named(b, n) {
            let i = choose|i: int| 0 <= i < b.len() && (#[trigger] b[i]).inspect.name@ == n;
            assert(b.contains(b[i]));
            let j = choose|j: int| 0 <= j < a.len() && a[j] == b[i];
            assert(a[j].inspect.name@ == n);
        }
    }
    assert forall|g: usize| uniform_to(a, n, g) == uniform_to(b, n, g) by {
        if uniform_to(a, n, g) {
            assert forall|i: int| 0 <= i < b.len() && (#[trigger] b[i]).inspect.name@ == n implies b[i].inspect.goes_to == g by {
                assert(b.contains(b[i]));
                let j = choose|j: int| 0 <= j < a.len() && a[j] == b[i];
            }
        }
        if uniform_to(b, n, g) {
            assert forall|i: int| 0 <= i < a.len() && (#[trigger] a[i]).inspect.name@ == n implies a[i].inspect.goes_to == g by {
                assert(a.contains(a[i]));
                let j = choose|j: int| 0 <= j < b.len() && b[j] == a[i];
            }
        }
    }
    if pos_of(a, n) is K {
        let g = pos_of(a, n)->K_0;
        assert(pos_of(b, n) == POS::K(g));
    } else if pos_of(b, n) is K {
        let g = pos_of(b, n)->K_0;
        assert(pos_of(a, n) == POS::K(g));
    }
}

/// Exporting the same instantiation after more instances, of which the first
/// ones are those it refers to, changes only its header and id.
pub proof fn lemma_export_prefix_tables<Code, Cons>(
    t: ExecutedTemplate<Code, Cons>,
    insts1: Seq<TemplateInstance<Code>>,
    insts2: Seq<TemplateInstance<Code>>,
    r1: TemplateInstance<Code>,
    r2: TemplateInstance<Code>,
)
    requires
        wiring_complete(t, insts1),
        insts1.len() <= insts2.len(),
        insts2.take(insts1.len() as int) == insts1,
        export_post(t, insts1, r1),
        export_post(t, insts2, r2),
    ensures
        triggers_view(r1.triggers@) == triggers_view(r2.triggers@),
        r1.clusters@ == r2.clusters@,
        signals_view(r1.signals@) == signals_view(r2.signals@),
        arguments_view(r1.arguments@) == arguments_view(r2.arguments@),
        components_view(r1.components@) == components_view(r2.components@),
        r1.template_id == insts1.len(),
        r2.template_id == insts2.len(),
{
    let cs = t.connexions@;
    assert forall|i: int| 0 <= i < cs.len() implies #[trigger] insts1[cs[i].inspect.goes_to as int]
        == insts2[cs[i].inspect.goes_to as int] by {
        assert(insts2.take(insts1.len() as int)[cs[i].inspect.goes_to as int]
            == insts2[cs[i].inspect.goes_to as int]);
    }
    assert(expected_triggers(cs, insts1) =~= expected_triggers(cs, insts2)) by {
        assert forall|i: int| 0 <= i < cs.len() implies expected_triggers(cs, insts1)[i]
            == expected_triggers(cs, insts2)[i] by {
            assert(insts1[cs[i].inspect.goes_to as int] == insts2[cs[i].inspect.goes_to as int]);
        }
    }
    let comps = t.components@;
    assert forall|k: int| 0 <= k < comps.len() implies expected_clusters(comps, cs, insts1)[k]
        == expected_clusters(comps, cs, insts2)[k] by {
        let n = comps[k].0@;
        assert(is_used(cs, n));
        let m = choose|m: int| 0 <= m < cs.len() && cs[m].inspect.name@ == n;
        lemma_first_from_bound(cs, n, 0, m);
        let st = first_from(cs, n, 0) as int;
        assert(insts1[cs[st].inspect.goes_to as int] == insts2[cs[st].inspect.goes_to as int]);
    }
    assert(expected_clusters(comps, cs, insts1) =~= expected_clusters(comps, cs, insts2));
}

proof fn lemma_first_from_bound(cs: Seq<Connexion>, n: Seq<char>, i: nat, m: int)
    requires
        i <= m < cs.len(),
        cs[m].inspect.name@ == n,
    ensures
        first_from(cs, n, i) <= m,
    decreases cs.len() - i,
{
    if i < m && cs[i as int].inspect.name@ != n {
        lemma_first_from_bound(cs, n, i + 1, m);
    }
}

/// In an exported instance the first signal has local id 0, each next signal
/// starts where the previous one ends, and every graph-wide id is the local id
/// plus one.
pub proof fn lemma_exported_numbering<Code, Cons>(
    t: ExecutedTemplate<Code, Cons>,
    insts: Seq<TemplateInstance<Code>>,
    r: TemplateInstance<Code>,
)
    requires
        signals_fit(t),
        export_post(t, insts, r),
    ensures
        r.signals@.len() > 0 ==> r.signals@[0].local_id == 0,
        forall|i: int|
            0 <= i < r.signals@.len() ==> (#[trigger] r.signals@[i]).dag_local_id
                == r.signals@[i].local_id + 1,
        forall|i: int|
            0 <= i < r.signals@.len() - 1 ==> (#[trigger] r.signals@[i + 1]).local_id
                == r.signals@[i].local_id + shape_size(r.signals@[i].lengths@),
{
    let d = ordered_decls(t);
    let sv = signals_view(r.signals@);
    assert(sv.len() == d.len());
    assert forall|i: int| 0 <= i < r.signals@.len() implies (#[trigger] r.signals@[i]).dag_local_id
        == r.signals@[i].local_id + 1 && (i == 0 ==> r.signals@[i].local_id == 0) by {
        lemma_numbering_contiguous(d, i);
        assert(sv[i] == numbered(d)[i]);
        assert(sv[0] == numbered(d)[0]);
    }
    assert forall|i: int| 0 <= i < r.signals@.len() - 1 implies (#[trigger] r.signals@[i
        + 1]).local_id == r.signals@[i].local_id + shape_size(r.signals@[i].lengths@) by {
        lemma_numbering_contiguous(d, i);
        assert(sv[i] == numbered(d)[i]);
        assert(sv[i + 1] == numbered(d)[i + 1]);
    }
}

} // verus!

use constraint_generation::executed_template::{
    filter_used_components, sort_connexions, Connexion, ExecutedTemplate, ParameterEntry,
    ParameterValue, SubComponentData,
};
use constraint_generation::export::{
    as_big_int, build_clusters, mixed_components, templates_in_mixed_arrays, ClusterType, Signal,
    TemplateInstance,
};
use constraint_generation::lattice::POS;
use constraint_generation::signals::{generate_symbols, indexed_name, SignalType};
use num_bigint_dig::BigInt;

type Tmp = ExecutedTemplate<(), ()>;

fn cnn(name: &str, idx: Vec<usize>, goes_to: usize) -> Connexion {
    Connexion {
        full_name: format!("{}{:?}", name, idx),
        inspect: SubComponentData { name: name.to_string(), goes_to, indexed_with: idx },
        dag_offset: 0,
        dag_component_offset: 0,
        dag_jump: 0,
        dag_component_jump: 0,
    }
}

fn instance(id: usize) -> TemplateInstance<()> {
    TemplateInstance {
        template_name: format!("T{}", id),
        template_header: format!("T{}_{}", id, id),
        template_id: id,
        code: (),
        is_parallel: false,
        has_parallel_sub_cmp: false,
        clusters: vec![],
        triggers: vec![],
        arguments: vec![],
        components: vec![],
        signals: vec![Signal {
            name: "out".to_string(),
            lengths: vec![],
            local_id: 0,
            dag_local_id: 1,
            xtype: SignalType::Output,
        }],
    }
}

fn instances(n: usize) -> Vec<TemplateInstance<()>> {
    (0..n).map(instance).collect()
}

fn empty_template(name: &str) -> Tmp {
    ExecutedTemplate::new(vec![], name.to_string(), name.to_string(), vec![], (), false)
}

fn names(s: &[constraint_generation::signals::Registration]) -> Vec<String> {
    s.iter().map(|r| r.name.clone()).collect()
}

#[test]
fn lattice_join_table() {
    assert_eq!(POS::least_upper_bound(POS::B, POS::K(3)), POS::K(3));
    assert_eq!(POS::least_upper_bound(POS::K(3), POS::B), POS::K(3));
    assert_eq!(POS::least_upper_bound(POS::K(3), POS::K(3)), POS::K(3));
    assert_eq!(POS::least_upper_bound(POS::K(3), POS::K(5)), POS::T);
    assert_eq!(POS::least_upper_bound(POS::T, POS::K(5)), POS::T);
    assert_eq!(POS::least_upper_bound(POS::B, POS::T), POS::T);
    assert_eq!(POS::least_upper_bound(POS::B, POS::B), POS::B);
}

#[test]
fn lattice_join_is_order_independent() {
    let all = [POS::B, POS::K(3), POS::K(5), POS::T];
    for a in all {
        for b in all {
            assert_eq!(POS::least_upper_bound(a, b), POS::least_upper_bound(b, a));
            for c in all {
                assert_eq!(
                    POS::least_upper_bound(POS::least_upper_bound(a, b), c),
                    POS::least_upper_bound(a, POS::least_upper_bound(b, c))
                );
            }
        }
    }
}

#[test]
fn indexed_name_appends_decimal_index() {
    assert_eq!(indexed_name(&"x".to_string(), 12), "x[12]");
    assert_eq!(indexed_name(&"a[1]".to_string(), 0), "a[1][0]");
}

#[test]
fn registration_expands_row_major() {
    let mut out = vec![];
    generate_symbols(&mut out, "x".to_string(), &vec![2, 3], 0, SignalType::Output, false);
    assert_eq!(
        names(&out),
        vec!["x[0][0]", "x[0][1]", "x[0][2]", "x[1][0]", "x[1][1]", "x[1][2]"]
    );
    assert!(out.iter().all(|r| r.signal_type == SignalType::Output && !r.is_public));
}

#[test]
fn registration_of_scalar_and_empty_shapes() {
    let mut out = vec![];
    generate_symbols(&mut out, "s".to_string(), &vec![], 0, SignalType::Intermediate, false);
    assert_eq!(names(&out), vec!["s"]);
    let mut none = vec![];
    generate_symbols(&mut none, "z".to_string(), &vec![3, 0, 2], 0, SignalType::Input, true);
    assert!(none.is_empty());
}

#[test]
fn registration_order_is_by_category() {
    let mut t = ExecutedTemplate::<(), ()>::new(
        vec!["p".to_string()],
        "T".to_string(),
        "T".to_string(),
        vec![],
        (),
        false,
    );
    t.add_intermediate("m", &[]);
    t.add_input("q", &[2]);
    t.add_input("p", &[]);
    t.add_output("o", &[]);
    let plan = t.build_signals();
    assert_eq!(names(&plan), vec!["o", "p", "q[0]", "q[1]", "m"]);
    assert_eq!(plan[0].signal_type, SignalType::Output);
    assert!(plan[1].is_public && plan[1].signal_type == SignalType::Input);
    assert!(!plan[2].is_public && plan[2].signal_type == SignalType::Input);
    assert_eq!(plan[4].signal_type, SignalType::Intermediate);
}

#[test]
fn connexion_sort_by_name_then_index() {
    let mut v = vec![cnn("B", vec![1], 0), cnn("A", vec![0], 0), cnn("A", vec![2], 0), cnn("B", vec![0], 0)];
    sort_connexions(&mut v);
    let got: Vec<(String, Vec<usize>)> =
        v.iter().map(|c| (c.inspect.name.clone(), c.inspect.indexed_with.clone())).collect();
    assert_eq!(
        got,
        vec![
            ("A".to_string(), vec![0]),
            ("A".to_string(), vec![2]),
            ("B".to_string(), vec![0]),
            ("B".to_string(), vec![1])
        ]
    );
}

#[test]
fn connexion_sort_orders_prefix_first_and_multi_index() {
    let mut v = vec![cnn("ab", vec![0], 0), cnn("a", vec![1, 0], 0), cnn("a", vec![0, 5], 0), cnn("a", vec![1], 0)];
    sort_connexions(&mut v);
    let got: Vec<(String, Vec<usize>)> =
        v.iter().map(|c| (c.inspect.name.clone(), c.inspect.indexed_with.clone())).collect();
    assert_eq!(
        got,
        vec![
            ("a".to_string(), vec![0, 5]),
            ("a".to_string(), vec![1]),
            ("a".to_string(), vec![1, 0]),
            ("ab".to_string(), vec![0])
        ]
    );
}

#[test]
fn unused_components_are_dropped() {
    let comps = vec![("c".to_string(), vec![3]), ("unused".to_string(), vec![2]), ("d".to_string(), vec![])];
    let cs = vec![cnn("d", vec![], 1), cnn("c", vec![0], 1)];
    let kept = filter_used_components(comps, &cs);
    assert_eq!(kept, vec![("c".to_string(), vec![3]), ("d".to_string(), vec![])]);
}

#[test]
fn build_connexions_sorts_and_filters() {
    let mut t = empty_template("T");
    t.add_component("b", &[2]);
    t.add_component("never", &[1]);
    t.add_arrow("b[1]".to_string(), SubComponentData { name: "b".to_string(), goes_to: 0, indexed_with: vec![1] });
    t.add_arrow("b[0]".to_string(), SubComponentData { name: "b".to_string(), goes_to: 0, indexed_with: vec![0] });
    t.build_connexions();
    assert_eq!(t.components, vec![("b".to_string(), vec![2])]);
    assert_eq!(t.connexions[0].full_name, "b[0]");
    assert_eq!(t.connexions[1].full_name, "b[1]");
}

#[test]
fn record_offsets_sets_offsets_and_jumps() {
    let mut t = empty_template("T");
    t.add_arrow("c[0]".to_string(), SubComponentData { name: "c".to_string(), goes_to: 0, indexed_with: vec![0] });
    t.add_arrow("c[1]".to_string(), SubComponentData { name: "c".to_string(), goes_to: 0, indexed_with: vec![1] });
    t.record_offsets(&vec![4, 9, 14], &vec![1, 2, 3]);
    assert_eq!(t.connexions[0].dag_offset, 4);
    assert_eq!(t.connexions[0].dag_jump, 5);
    assert_eq!(t.connexions[1].dag_offset, 9);
    assert_eq!(t.connexions[1].dag_jump, 5);
    assert_eq!(t.connexions[1].dag_component_offset, 2);
    assert_eq!(t.connexions[1].dag_component_jump, 1);
    assert_eq!(t.connexions[0].full_name, "c[0]");
}

fn wired(targets: [usize; 3]) -> Tmp {
    let mut t = empty_template("T");
    t.add_component("c", &[3]);
    for (i, g) in targets.iter().enumerate() {
        t.add_arrow(format!("c[{}]", i), SubComponentData { name: "c".to_string(), goes_to: *g, indexed_with: vec![i] });
    }
    t.build_connexions();
    t.record_offsets(&vec![0, 3, 6, 9], &vec![0, 1, 2, 3]);
    t
}

#[test]
fn uniform_array_gives_one_uniform_cluster() {
    let t = wired([7, 7, 7]);
    let insts = instances(10);
    let clusters = build_clusters(&t, &insts);
    assert_eq!(clusters.len(), 1);
    assert_eq!(clusters[0].length, 3);
    assert_eq!((clusters[0].slice_start, clusters[0].slice_end), (0, 3));
    assert_eq!(clusters[0].cmp_name, "c");
    match &clusters[0].xtype {
        ClusterType::Uniform { offset_jump, component_offset_jump, instance_id, header } => {
            assert_eq!(*offset_jump, 3);
            assert_eq!(*component_offset_jump, 1);
            assert_eq!(*instance_id, 7);
            assert_eq!(header, "T7_7");
        }
        ClusterType::Mixed { .. } => panic!("expected a uniform cluster"),
    }
    assert_eq!(mixed_components(&t), vec![false]);
}

#[test]
fn mixed_array_gives_mixed_cluster() {
    let t = wired([7, 9, 7]);
    let insts = instances(10);
    let clusters = build_clusters(&t, &insts);
    assert_eq!(clusters.len(), 1);
    assert_eq!(clusters[0].length, 3);
    match &clusters[0].xtype {
        ClusterType::Mixed { tmp_name } => assert_eq!(tmp_name, "T7"),
        ClusterType::Uniform { .. } => panic!("expected a mixed cluster"),
    }
    assert_eq!(mixed_components(&t), vec![true]);
}

#[test]
fn templates_reached_through_mixed_arrays() {
    let mut t = wired([7, 9, 7]);
    t.add_arrow("u".to_string(), SubComponentData { name: "u".to_string(), goes_to: 2, indexed_with: vec![] });
    let flags = templates_in_mixed_arrays(&t, 10);
    let expected: Vec<bool> = (0..10).map(|g| g == 7 || g == 9).collect();
    assert_eq!(flags, expected);
}

#[test]
fn numbers_are_kept_and_expressions_dropped() {
    let v = vec![
        ParameterEntry::Number(BigInt::from(5)),
        ParameterEntry::Expression,
        ParameterEntry::Number(BigInt::from(-2)),
    ];
    assert_eq!(as_big_int(v), vec![BigInt::from(5), BigInt::from(-2)]);
}

fn params(v: i64) -> Vec<(String, ParameterValue)> {
    vec![(
        "n".to_string(),
        ParameterValue { lengths: vec![2], values: vec![ParameterEntry::Number(BigInt::from(v)), ParameterEntry::Expression] },
    )]
}

#[test]
fn is_equal_compares_name_and_parameters() {
    let t = ExecutedTemplate::<(), ()>::new(vec![], "T".to_string(), "T".to_string(), params(3), (), false);
    assert!(t.is_equal("T", &params(3)));
    assert!(!t.is_equal("T", &params(4)));
    assert!(!t.is_equal("U", &params(3)));
    assert!(!t.is_equal("T", &vec![]));
}

fn numbered_template() -> Tmp {
    let mut t = ExecutedTemplate::<(), ()>::new(
        vec!["pi".to_string()],
        "Main".to_string(),
        "Main".to_string(),
        params(8),
        (),
        true,
    );
    t.add_intermediate("m", &[]);
    t.add_input("qi", &[3]);
    t.add_input("pi", &[2]);
    t.add_output("o1", &[]);
    t.add_output("o2", &[4]);
    t
}

#[test]
fn export_numbers_signals_contiguously() {
    let t = numbered_template();
    let insts = instances(3);
    let r = t.export_to_circuit(&insts);
    let got: Vec<(String, usize, usize, SignalType)> =
        r.signals.iter().map(|s| (s.name.clone(), s.local_id, s.dag_local_id, s.xtype)).collect();
    assert_eq!(
        got,
        vec![
            ("o1".to_string(), 0, 1, SignalType::Output),
            ("o2".to_string(), 1, 2, SignalType::Output),
            ("pi".to_string(), 5, 6, SignalType::Input),
            ("qi".to_string(), 7, 8, SignalType::Input),
            ("m".to_string(), 10, 11, SignalType::Intermediate),
        ]
    );
    let sizes: Vec<usize> = r.signals.iter().map(|s| s.size()).collect();
    assert_eq!(sizes, vec![1, 4, 2, 3, 1]);
    assert_eq!(r.template_header, "Main_3");
    assert_eq!(r.template_id, 3);
    assert!(r.is_parallel);
    assert_eq!(r.arguments.len(), 1);
    assert_eq!(r.arguments[0].name, "n");
    assert_eq!(r.arguments[0].lengths, vec![2]);
    assert_eq!(r.arguments[0].values, vec![BigInt::from(8)]);
}

fn export_with_wiring(count: usize) -> TemplateInstance<()> {
    let mut t = numbered_template();
    t.add_component("c", &[2]);
    t.add_component("unused", &[5]);
    t.add_arrow("c[1]".to_string(), SubComponentData { name: "c".to_string(), goes_to: 1, indexed_with: vec![1] });
    t.add_arrow("c[0]".to_string(), SubComponentData { name: "c".to_string(), goes_to: 1, indexed_with: vec![0] });
    t.build_connexions();
    t.record_offsets(&vec![11, 12, 13], &vec![0, 1, 2]);
    t.export_to_circuit(&instances(count))
}

#[test]
fn export_builds_triggers_and_components() {
    let r = export_with_wiring(2);
    assert_eq!(r.components.len(), 1);
    assert_eq!(r.components[0].name, "c");
    assert_eq!(r.components[0].lengths, vec![2]);
    assert_eq!(r.triggers.len(), 2);
    assert_eq!(r.triggers[0].indexed_with, vec![0]);
    assert_eq!(r.triggers[0].offset, 11);
    assert_eq!(r.triggers[1].offset, 12);
    assert_eq!(r.triggers[1].component_offset, 1);
    assert_eq!(r.triggers[1].runs, "T1_1");
    assert_eq!(r.triggers[1].template_id, 1);
    assert_eq!(r.triggers[1].external_signals.len(), 1);
    assert_eq!(r.triggers[1].external_signals[0].name, "out");
    assert_eq!(r.clusters.len(), 1);
    assert_eq!(r.clusters[0].length, 2);
}

#[test]
fn export_twice_gives_the_same_lists() {
    let a = export_with_wiring(2);
    let b = export_with_wiring(2);
    let c = export_with_wiring(5);
    let sig = |r: &TemplateInstance<()>| -> Vec<(String, Vec<usize>, usize, usize)> {
        r.signals.iter().map(|s| (s.name.clone(), s.lengths.clone(), s.local_id, s.dag_local_id)).collect()
    };
    let trig = |r: &TemplateInstance<()>| -> Vec<(usize, usize, String, Vec<usize>, String, usize)> {
        r.triggers
            .iter()
            .map(|t| (t.offset, t.component_offset, t.component_name.clone(), t.indexed_with.clone(), t.runs.clone(), t.template_id))
            .collect()
    };
    let args = |r: &TemplateInstance<()>| -> Vec<(String, Vec<usize>, Vec<BigInt>)> {
        r.arguments.iter().map(|x| (x.name.clone(), x.lengths.clone(), x.values.clone())).collect()
    };
    assert_eq!(sig(&a), sig(&b));
    assert_eq!(trig(&a), trig(&b));
    assert_eq!(args(&a), args(&b));
    assert_eq!(a.template_header, b.template_header);
    assert_eq!(sig(&a), sig(&c));
    assert_eq!(args(&a), args(&c));
    assert_eq!(c.template_header, "Main_5");
    assert_eq!(c.template_id, 5);
}

#[test]
fn connexion_sort_keeps_order_of_equal_keys() {
    let mut v = vec![cnn("B", vec![0], 1), cnn("A", vec![0], 2), cnn("B", vec![0], 3), cnn("A", vec![0], 4)];
    sort_connexions(&mut v);
    let got: Vec<(String, usize)> = v.iter().map(|c| (c.inspect.name.clone(), c.inspect.goes_to)).collect();
    assert_eq!(
        got,
        vec![("A".to_string(), 2), ("A".to_string(), 4), ("B".to_string(), 1), ("B".to_string(), 3)]
    );
}

#[test]
fn decimal_names_of_large_indices() {
    assert_eq!(indexed_name(&"s".to_string(), 0), "s[0]");
    assert_eq!(indexed_name(&"s".to_string(), 1090), "s[1090]");
}

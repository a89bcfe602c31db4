use vstd::prelude::*;

verus! {

/// The category in which a scalar signal is registered.
#[derive(Clone, Copy, PartialEq, Eq, Structural, Debug)]
pub enum SignalType {
    Output,
    Input,
    Intermediate,
}

/// One scalar signal to register with the dependency graph.
pub struct Registration {
    pub name: String,
    pub signal_type: SignalType,
    pub is_public: bool,
}

impl Registration {
    pub open spec fn view(&self) -> (Seq<char>, SignalType, bool) {
        (self.name@, self.signal_type, self.is_public)
    }
}

pub open spec fn digit(d: nat) -> char {
    seq!['0', '1', '2', '3', '4', '5', '6', '7', '8', '9'][d as int]
}

/// The decimal digits of `n`, most significant first.
pub open spec fn decimal(n: nat) -> Seq<char>
    decreases n,
{
    if n < 10 {
        seq![digit(n)]
    } else {
        decimal(n / 10) + seq![digit(n % 10)]
    }
}

/// `name[i]`: the name of element `i` of an array signal or component.
pub open spec fn with_index(name: Seq<char>, i: nat) -> Seq<char> {
    name + seq!['['] + decimal(i) + seq![']']
}

fn digit_text(d: usize) -> (r: &'static str)
    requires
        d < 10,
    ensures
        r@ == seq![digit(d as nat)],
{
    proof {
        reveal_strlit("0");
        reveal_strlit("1");
        reveal_strlit("2");
        reveal_strlit("3");
        reveal_strlit("4");
        reveal_strlit("5");
        reveal_strlit("6");
        reveal_strlit("7");
        reveal_strlit("8");
        reveal_strlit("9");
    }
    let r = if d == 0 {
        "0"
    } else if d == 1 {
        "1"
    } else if d == 2 {
        "2"
    } else if d == 3 {
        "3"
    } else if d == 4 {
        "4"
    } else if d == 5 {
        "5"
    } else if d == 6 {
        "6"
    } else if d == 7 {
        "7"
    } else if d == 8 {
        "8"
    } else {
        "9"
    };
    assert(r@ =~= seq![digit(d as nat)]);
    r
}

/// The decimal digits of `n`, most significant first.
pub(crate) fn decimal_string(n: usize) -> (r: String)
    ensures
        r@ == decimal(n as nat),
    decreases n,
{
    if n < 10 {
        digit_text(n).to_owned()
    } else {
        let r = decimal_string(n / 10).concat(digit_text(n % 10));
        assert(r@ =~= decimal(n as nat));
        r
    }
}

pub fn indexed_name(name: &String, i: usize) -> (r: String)
    ensures
        r@ == with_index(name@, i as nat),
{
    let digits = decimal_string(i);
    proof {
        reveal_strlit("[");
        reveal_strlit("]");
    }
    let r = name.clone().concat("[").concat(digits.as_str()).concat("]");
    assert(r@ =~= with_index(name@, i as nat));
    r
}

/// The scalars of a declaration `prefix` of shape `dims`, in row-major order
/// (last dimension fastest).
pub open spec fn expand(prefix: Seq<char>, dims: Seq<usize>, st: SignalType, public: bool) -> Seq<
    (Seq<char>, SignalType, bool),
>
    decreases dims.len(), 1nat, 0nat,
{
    if dims.len() == 0 {
        seq![(prefix, st, public)]
    } else {
        expand_upto(prefix, dims, dims[0] as nat, st, public)
    }
}

/// The scalars of the first `k` elements along the first dimension of `dims`.
pub open spec fn expand_upto(
    prefix: Seq<char>,
    dims: Seq<usize>,
    k: nat,
    st: SignalType,
    public: bool,
) -> Seq<(Seq<char>, SignalType, bool)>
    decreases dims.len(), 0nat, k,
{
    if dims.len() == 0 || k == 0 {
        seq![]
    } else {
        expand_upto(prefix, dims, (k - 1) as nat, st, public) + expand(
            with_index(prefix, (k - 1) as nat),
            dims.drop_first(),
            st,
            public,
        )
    }
}

/// The number of scalars in a signal of shape `dims`.
pub open spec fn dims_product(dims: Seq<usize>) -> nat
    decreases dims.len(),
{
    if dims.len() == 0 {
        1
    } else {
        (dims[0] as nat) * dims_product(dims.drop_first())
    }
}

pub proof fn lemma_expand_len(prefix: Seq<char>, dims: Seq<usize>, st: SignalType, public: bool)
    ensures
        expand(prefix, dims, st, public).len() == dims_product(dims),
    decreases dims.len(), 1nat, 0nat,
{
    if dims.len() > 0 {
        lemma_expand_upto_len(prefix, dims, dims[0] as nat, st, public);
    }
}

pub proof fn lemma_expand_upto_len(
    prefix: Seq<char>,
    dims: Seq<usize>,
    k: nat,
    st: SignalType,
    public: bool,
)
    requires
        dims.len() > 0,
    ensures
        expand_upto(prefix, dims, k, st, public).len() == k * dims_product(dims.drop_first()),
    decreases dims.len(), 0nat, k,
{
    if k > 0 {
        lemma_expand_upto_len(prefix, dims, (k - 1) as nat, st, public);
        lemma_expand_len(with_index(prefix, (k - 1) as nat), dims.drop_first(), st, public);
        let p = dims_product(dims.drop_first());
        assert(((k - 1) as nat) * p + p == k * p) by (nonlinear_arith)
            requires
                k > 0,
        ;
    } else {
        assert(0 * dims_product(dims.drop_first()) == 0) by (nonlinear_arith);
    }
}

/// Every scalar of a declaration carries the declaration's category and visibility.
pub proof fn lemma_expand_tags(
    prefix: Seq<char>,
    dims: Seq<usize>,
    st: SignalType,
    public: bool,
    j: int,
)
    requires
        0 <= j < expand(prefix, dims, st, public).len(),
    ensures
        expand(prefix, dims, st, public)[j].1 == st,
        expand(prefix, dims, st, public)[j].2 == public,
    decreases dims.len(), 1nat, 0nat,
{
    if dims.len() > 0 {
        lemma_expand_upto_tags(prefix, dims, dims[0] as nat, st, public, j);
    }
}

pub proof fn lemma_expand_upto_tags(
    prefix: Seq<char>,
    dims: Seq<usize>,
    k: nat,
    st: SignalType,
    public: bool,
    j: int,
)
    requires
        0 <= j < expand_upto(prefix, dims, k, st, public).len(),
    ensures
        expand_upto(prefix, dims, k, st, public)[j].1 == st,
        expand_upto(prefix, dims, k, st, public)[j].2 == public,
    decreases dims.len(), 0nat, k,
{
    if dims.len() > 0 && k > 0 {
        let a = expand_upto(prefix, dims, (k - 1) as nat, st, public);
        let child = with_index(prefix, (k - 1) as nat);
        if j < a.len() {
            lemma_expand_upto_tags(prefix, dims, (k - 1) as nat, st, public, j);
        } else {
            lemma_expand_tags(child, dims.drop_first(), st, public, j - a.len());
        }
    }
}

/// Appends to `out` the scalars of the declaration `name` of shape `dims[dim..]`.
pub fn generate_symbols(
    out: &mut Vec<Registration>,
    name: String,
    dims: &Vec<usize>,
    dim: usize,
    st: SignalType,
    public: bool,
)
    requires
        dim <= dims@.len(),
    ensures
        final(out)@.map_values(|r: Registration| r@) == old(out)@.map_values(|r: Registration| r@)
            + expand(name@, dims@.skip(dim as int), st, public),
    decreases dims@.len() - dim,
{
    let ghost rest = dims@.skip(dim as int);
    let n = dims.len();
    if dim == n {
        let ghost old_out = out@;
        out.push(Registration { name, signal_type: st, is_public: public });
        proof {
            assert(out@.map_values(|r: Registration| r@) =~= old_out.map_values(
                |r: Registration| r@,
            ) + expand(name@, rest, st, public));
        }
    } else {
        let ghost start = out@.map_values(|r: Registration| r@);
        let mut index: usize = 0;
        while index < dims[dim]
            invariant
                dim < dims@.len(),
                n == dims@.len(),
                rest == dims@.skip(dim as int),
                index <= dims@[dim as int],
                out@.map_values(|r: Registration| r@) == start + expand_upto(
                    name@,
                    rest,
                    index as nat,
                    st,
                    public,
                ),
            decreases dims@[dim as int] - index,
        {
            let child = indexed_name(&name, index);
            let ghost child_v = child@;
            let ghost before = out@.map_values(|r: Registration| r@);
            generate_symbols(out, child, dims, dim + 1, st, public);
            proof {
                assert(rest.drop_first() =~= dims@.skip(dim + 1));
                assert(expand_upto(name@, rest, (index + 1) as nat, st, public) == expand_upto(
                    name@,
                    rest,
                    index as nat,
                    st,
                    public,
                ) + expand(child_v, rest.drop_first(), st, public));
                assert(out@.map_values(|r: Registration| r@) =~= start + expand_upto(
                    name@,
                    rest,
                    (index + 1) as nat,
                    st,
                    public,
                ));
            }
            index = index + 1;
        }
        proof {
            assert(rest[0] == dims@[dim as int]);
        }
    }
}

pub open spec fn has_prefix(s: Seq<char>, p: Seq<char>) -> bool {
    p.len() <= s.len() && s.subrange(0, p.len() as int) == p
}

proof fn lemma_digit_facts(d: nat)
    requires
        d < 10,
    ensures
        digit(d) != ']',
        forall|e: nat| e < 10 && #[trigger] digit(e) == digit(d) ==> e == d,
{
    let ds = seq!['0', '1', '2', '3', '4', '5', '6', '7', '8', '9'];
    assert(digit(d) == ds[d as int]);
    assert forall|e: nat| e < 10 && #[trigger] digit(e) == digit(d) implies e == d by {
        assert(digit(e) == ds[e as int]);
    }
}

proof fn lemma_decimal_no_bracket(n: nat)
    ensures
        decimal(n).len() >= 1,
        n >= 10 ==> decimal(n).len() >= 2,
        forall|k: int| 0 <= k < decimal(n).len() ==> #[trigger] decimal(n)[k] != ']',
    decreases n,
{
    if n < 10 {
        lemma_digit_facts(n);
    } else {
        lemma_decimal_no_bracket(n / 10);
        lemma_digit_facts(n % 10);
        let a = decimal(n / 10);
        assert forall|k: int| 0 <= k < decimal(n).len() implies #[trigger] decimal(n)[k] != ']' by {
            if k < a.len() {
                assert(decimal(n)[k] == a[k]);
            }
        }
    }
}

proof fn lemma_decimal_injective(i: nat, j: nat)
    requires
        decimal(i) == decimal(j),
    ensures
        i == j,
    decreases i,
{
    lemma_decimal_no_bracket(i);
    lemma_decimal_no_bracket(j);
    if i < 10 && j < 10 {
        lemma_digit_facts(i);
        assert(decimal(i)[0] == digit(i));
        assert(decimal(j)[0] == digit(j));
    } else if i >= 10 && j >= 10 {
        let a = decimal(i / 10);
        let b = decimal(j / 10);
        assert(a.len() == b.len());
        assert(a =~= decimal(i).drop_last());
        assert(b =~= decimal(j).drop_last());
        lemma_decimal_injective(i / 10, j / 10);
        lemma_digit_facts(i % 10);
        assert(decimal(i).last() == digit(i % 10));
        assert(decimal(j).last() == digit(j % 10));
    }
}

/// Names below two different elements of one array differ.
proof fn lemma_children_differ(p: Seq<char>, i: nat, j: nat, x: Seq<char>, y: Seq<char>)
    requires
        i != j,
        has_prefix(x, with_index(p, i)),
        has_prefix(y, with_index(p, j)),
    ensures
        x != y,
{
    if x == y {
        let a = decimal(i);
        let b = decimal(j);
        let l: int = p.len() as int + 1;
        lemma_decimal_no_bracket(i);
        lemma_decimal_no_bracket(j);
        let ci = with_index(p, i);
        let cj = with_index(p, j);
        assert forall|m: int| 0 <= m < a.len() implies x[l + m] == a[m] by {
            assert(ci[l + m] == a[m]);
            assert(x.subrange(0, ci.len() as int)[l + m] == ci[l + m]);
        }
        assert forall|m: int| 0 <= m < b.len() implies y[l + m] == b[m] by {
            assert(cj[l + m] == b[m]);
            assert(y.subrange(0, cj.len() as int)[l + m] == cj[l + m]);
        }
        let la: int = a.len() as int;
        let lb: int = b.len() as int;
        assert(ci[l + la] == ']');
        assert(x.subrange(0, ci.len() as int)[l + la] == ci[l + la]);
        assert(cj[l + lb] == ']');
        assert(y.subrange(0, cj.len() as int)[l + lb] == cj[l + lb]);
        if a.len() < b.len() {
            assert(b[a.len() as int] != ']');
        } else if b.len() < a.len() {
            assert(a[b.len() as int] != ']');
        } else {
            assert(a =~= b);
            lemma_decimal_injective(i, j);
        }
    }
}

proof fn lemma_expand_prefix(p: Seq<char>, dims: Seq<usize>, st: SignalType, public: bool, k: int)
    requires
        0 <= k < expand(p, dims, st, public).len(),
    ensures
        has_prefix(expand(p, dims, st, public)[k].0, p),
    decreases dims.len(), 1nat, 0nat,
{
    if dims.len() == 0 {
        assert(expand(p, dims, st, public)[k].0.subrange(0, p.len() as int) =~= p);
    } else {
        lemma_expand_upto_prefix(p, dims, dims[0] as nat, st, public, k);
        let i = choose|i: nat|
            i < dims[0] && has_prefix(
                expand_upto(p, dims, dims[0] as nat, st, public)[k].0,
                with_index(p, i),
            );
        let x = expand(p, dims, st, public)[k].0;
        assert(x.subrange(0, p.len() as int) =~= x.subrange(
            0,
            with_index(p, i).len() as int,
        ).subrange(0, p.len() as int));
        assert(with_index(p, i).subrange(0, p.len() as int) =~= p);
    }
}

proof fn lemma_expand_upto_prefix(
    p: Seq<char>,
    dims: Seq<usize>,
    n: nat,
    st: SignalType,
    public: bool,
    k: int,
)
    requires
        0 <= k < expand_upto(p, dims, n, st, public).len(),
    ensures
        exists|i: nat|
            i < n && has_prefix(
                #[trigger] expand_upto(p, dims, n, st, public)[k].0,
                with_index(p, i),
            ),
    decreases dims.len(), 0nat, n,
{
    if dims.len() > 0 && n > 0 {
        let a = expand_upto(p, dims, (n - 1) as nat, st, public);
        if k < a.len() {
            lemma_expand_upto_prefix(p, dims, (n - 1) as nat, st, public, k);
            let i = choose|i: nat| i < n - 1 && has_prefix(a[k].0, with_index(p, i));
            assert(has_prefix(expand_upto(p, dims, n, st, public)[k].0, with_index(p, i)));
        } else {
            lemma_expand_prefix(with_index(p, (n - 1) as nat), dims.drop_first(), st, public, k - a.len());
            assert(has_prefix(
                expand_upto(p, dims, n, st, public)[k].0,
                with_index(p, (n - 1) as nat),
            ));
        }
    }
}

/// A declaration of shape `dims` yields `dims_product(dims)` scalars, in
/// row-major order (the definition of `expand`), with pairwise different names.
pub proof fn lemma_expand_unique(p: Seq<char>, dims: Seq<usize>, st: SignalType, public: bool)
    ensures
        expand(p, dims, st, public).len() == dims_product(dims),
        forall|i: int, j: int|
            0 <= i < j < expand(p, dims, st, public).len() ==> #[trigger] expand(
                p,
                dims,
                st,
                public,
            )[i].0 != #[trigger] expand(p, dims, st, public)[j].0,
    decreases dims.len(), 1nat, 0nat,
{
    lemma_expand_len(p, dims, st, public);
    if dims.len() > 0 {
        lemma_expand_upto_unique(p, dims, dims[0] as nat, st, public);
        assert(expand(p, dims, st, public) == expand_upto(p, dims, dims[0] as nat, st, public));
    }
}

proof fn lemma_expand_upto_unique(
    p: Seq<char>,
    dims: Seq<usize>,
    n: nat,
    st: SignalType,
    public: bool,
)
    ensures
        forall|i: int, j: int|
            0 <= i < j < expand_upto(p, dims, n, st, public).len() ==> #[trigger] expand_upto(
                p,
                dims,
                n,
                st,
                public,
            )[i].0 != #[trigger] expand_upto(p, dims, n, st, public)[j].0,
    decreases dims.len(), 0nat, n,
{
    if dims.len() > 0 && n > 0 {
        let a = expand_upto(p, dims, (n - 1) as nat, st, public);
        let child = with_index(p, (n - 1) as nat);
        let b = expand(child, dims.drop_first(), st, public);
        let all = expand_upto(p, dims, n, st, public);
        lemma_expand_upto_unique(p, dims, (n - 1) as nat, st, public);
        lemma_expand_unique(child, dims.drop_first(), st, public);
        assert forall|i: int, j: int| 0 <= i < j < all.len() implies #[trigger] all[i].0
            != #[trigger] all[j].0 by {
            if j < a.len() {
                assert(all[i] == a[i] && all[j] == a[j]);
            } else if i >= a.len() {
                assert(all[i] == b[i - a.len()] && all[j] == b[j - a.len()]);
            } else {
                assert(all[i] == a[i] && all[j] == b[j - a.len()]);
                lemma_expand_upto_prefix(p, dims, (n - 1) as nat, st, public, i);
                let c = choose|c: nat| c < n - 1 && has_prefix(a[i].0, with_index(p, c));
                lemma_expand_prefix(child, dims.drop_first(), st, public, j - a.len());
                lemma_children_differ(p, c, (n - 1) as nat, a[i].0, b[j - a.len()].0);
            }
        }
    }
}

/// Row-major order: the scalars of element `i` along the first dimension
/// form the block `[i * P, (i + 1) * P)`, where `P` is the size of one element.
pub proof fn lemma_expand_blocks(p: Seq<char>, dims: Seq<usize>, st: SignalType, public: bool, i: int)
    requires
        dims.len() > 0,
        0 <= i < dims[0],
    ensures
        expand(p, dims, st, public).subrange(
            i * dims_product(dims.drop_first()),
            (i + 1) * dims_product(dims.drop_first()),
        ) == expand(with_index(p, i as nat), dims.drop_first(), st, public),
{
    lemma_expand_upto_blocks(p, dims, dims[0] as nat, st, public, i);
}

proof fn lemma_expand_upto_blocks(
    p: Seq<char>,
    dims: Seq<usize>,
    k: nat,
    st: SignalType,
    public: bool,
    i: int,
)
    requires
        dims.len() > 0,
        0 <= i < k,
    ensures
        expand_upto(p, dims, k, st, public).subrange(
            i * dims_product(dims.drop_first()),
            (i + 1) * dims_product(dims.drop_first()),
        ) == expand(with_index(p, i as nat), dims.drop_first(), st, public),
    decreases k,
{
    let pp = dims_product(dims.drop_first());
    let a = expand_upto(p, dims, (k - 1) as nat, st, public);
    let b = expand(with_index(p, (k - 1) as nat), dims.drop_first(), st, public);
    lemma_expand_upto_len(p, dims, (k - 1) as nat, st, public);
    lemma_expand_len(with_index(p, (k - 1) as nat), dims.drop_first(), st, public);
    assert(expand_upto(p, dims, k, st, public) == a + b);
    if i < k - 1 {
        lemma_expand_upto_blocks(p, dims, (k - 1) as nat, st, public, i);
        assert((i + 1) * pp <= (k - 1) * pp) by (nonlinear_arith)
            requires
                i + 1 <= k - 1,
        ;
        assert(0 <= i * pp) by (nonlinear_arith)
            requires
                i >= 0,
        ;
        assert(i * pp <= (i + 1) * pp) by (nonlinear_arith);
        assert((a + b).subrange(i * pp, (i + 1) * pp) =~= a.subrange(i * pp, (i + 1) * pp));
    } else {
        assert((i + 1) * pp == i * pp + pp) by (nonlinear_arith);
        assert(i * pp == (k - 1) * pp);
        assert((a + b).subrange(i * pp, (i + 1) * pp) =~= b);
    }
}

} // verus!

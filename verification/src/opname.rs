//! The names that operations are recorded under.
use vstd::prelude::*;
use crate::op::OpType;
use crate::record::{can_record, recorded};
use crate::runtime::Runtime;
use crate::tape::derefs;
use crate::tensor::Tensor;
use crate::text::{
    begins, behind, chars_of, decimal, fields, is_text, law_number_decimal, lemma_fields_join,
    lemma_fields_single, number, parse_number, push_number, push_text, rest_of, split, starts,
    views,
};

verus! {

/// The arguments in a name: the parts behind its beginning.
pub open spec fn args(s: Seq<char>, p: Seq<char>) -> Seq<Seq<char>> {
    fields(behind(s, p), '_')
}

/// The first `n` arguments are numbers.
pub open spec fn numbers(s: Seq<char>, p: Seq<char>, ns: Seq<usize>) -> bool {
    &&& starts(s, p)
    &&& args(s, p).len() >= ns.len()
    &&& forall|i: int| 0 <= i < ns.len() ==> number(args(s, p)[i]) == Some(#[trigger] ns[i])
}

/// An axis and whether it is kept: a number, and `1` for yes.
pub open spec fn reduces(s: Seq<char>, p: Seq<char>, dim: usize, keep_dim: bool) -> bool {
    &&& starts(s, p)
    &&& args(s, p).len() >= 2
    &&& number(args(s, p)[0]) == Some(dim)
    &&& keep_dim == (args(s, p)[1] == "1"@)
}

/// The axes of a permutation, between commas.
pub open spec fn permutes(s: Seq<char>, axes: Seq<usize>) -> bool {
    let parts = fields(behind(s, "permute_"@), ',');
    &&& starts(s, "permute_"@)
    &&& parts.len() == axes.len()
    &&& forall|i: int| 0 <= i < axes.len() ==> number(parts[i]) == Some(#[trigger] axes[i])
}

/// The mode of a batch normalisation.
pub open spec fn batch_mode(s: Seq<char>, training: bool) -> bool {
    let parts = args(s, "batchnorm_"@);
    &&& starts(s, "batchnorm_"@)
    &&& parts.len() >= 2
    &&& parts[0] == (if training {
        "true"@
    } else {
        "false"@
    })
}

/// `s` names the operation, where the number that the name writes for a stabiliser has the
/// pattern `eps_bits`.
pub open spec fn names(s: Seq<char>, eps: u32, op: OpType) -> bool {
    match op {
        OpType::Add => s == "add"@,
        OpType::Sub => s == "sub"@,
        OpType::Mul => s == "mul"@,
        OpType::Div => s == "div"@,
        OpType::Matmul => s == "matmul"@,
        OpType::Relu => s == "relu"@,
        OpType::Gelu => s == "gelu"@,
        OpType::Embedding => s == "embedding"@,
        OpType::CrossEntropy => s == "cross_entropy"@,
        OpType::FusedAttention => s == "fused_attention"@,
        OpType::Reshape => s == "reshape"@,
        OpType::Transpose { dim0, dim1 } => numbers(s, "transpose_"@, seq![dim0, dim1]),
        OpType::Permute { axes } => permutes(s, axes@),
        OpType::Softmax { dim } => starts(s, "softmax_"@) && number(behind(s, "softmax_"@))
            == Some(dim),
        OpType::LayerNorm { eps_bits } => starts(s, "layernorm_"@) && eps_bits == eps,
        OpType::Sum { dim, keep_dim } => reduces(s, "sum_"@, dim, keep_dim),
        OpType::Mean { dim, keep_dim } => reduces(s, "mean_"@, dim, keep_dim),
        OpType::Conv2d { stride, padding } => numbers(s, "conv2d_"@, seq![stride, padding]),
        OpType::MaxPool2d { kernel_size, stride, padding } => numbers(
            s,
            "maxpool2d_"@,
            seq![kernel_size, stride, padding],
        ),
        OpType::AvgPool2d { kernel_size, stride, padding } => numbers(
            s,
            "avgpool2d_"@,
            seq![kernel_size, stride, padding],
        ),
        OpType::BatchNorm { training, eps_bits } => batch_mode(s, training) && eps_bits == eps,
        OpType::Checkpoint => false,
    }
}

/// The same operation with the same arguments.
pub open spec fn same_op(a: OpType, b: OpType) -> bool {
    match (a, b) {
        (OpType::Permute { axes: x }, OpType::Permute { axes: y }) => x@ == y@,
        _ => a == b,
    }
}

/// The first three characters of a text.
pub open spec fn begins3(s: Seq<char>, a: char, b: char, c: char) -> bool {
    s.len() >= 3 && s[0] == a && s[1] == b && s[2] == c
}

/// What tells the names of operations apart.
pub open spec fn mark(s: Seq<char>, op: OpType) -> bool {
    match op {
        OpType::Add => begins3(s, 'a', 'd', 'd'),
        OpType::Sub => begins3(s, 's', 'u', 'b'),
        OpType::Mul => begins3(s, 'm', 'u', 'l'),
        OpType::Div => begins3(s, 'd', 'i', 'v'),
        OpType::Matmul => begins3(s, 'm', 'a', 't'),
        OpType::Relu => begins3(s, 'r', 'e', 'l'),
        OpType::Gelu => begins3(s, 'g', 'e', 'l'),
        OpType::Embedding => begins3(s, 'e', 'm', 'b'),
        OpType::CrossEntropy => begins3(s, 'c', 'r', 'o'),
        OpType::FusedAttention => begins3(s, 'f', 'u', 's'),
        OpType::Reshape => begins3(s, 'r', 'e', 's'),
        OpType::Transpose { .. } => begins3(s, 't', 'r', 'a'),
        OpType::Permute { .. } => begins3(s, 'p', 'e', 'r'),
        OpType::Softmax { .. } => begins3(s, 's', 'o', 'f'),
        OpType::LayerNorm { .. } => begins3(s, 'l', 'a', 'y'),
        OpType::Sum { .. } => begins3(s, 's', 'u', 'm'),
        OpType::Mean { .. } => begins3(s, 'm', 'e', 'a'),
        OpType::Conv2d { .. } => begins3(s, 'c', 'o', 'n'),
        OpType::MaxPool2d { .. } => begins3(s, 'm', 'a', 'x'),
        OpType::AvgPool2d { .. } => begins3(s, 'a', 'v', 'g'),
        OpType::BatchNorm { .. } => begins3(s, 'b', 'a', 't'),
        OpType::Checkpoint => false,
    }
}

proof fn lemma_starts3(s: Seq<char>, p: Seq<char>, a: char, b: char, c: char)
    requires
        starts(s, p),
        begins3(p, a, b, c),
    ensures
        begins3(s, a, b, c),
{
    let t = s.subrange(0, p.len() as int);
    assert(t[0] == s[0] && t[1] == s[1] && t[2] == s[2]);
}

/// A name shows which operation it names by its first characters.
pub proof fn lemma_mark(s: Seq<char>, eps: u32, op: OpType)
    requires
        names(s, eps, op),
    ensures
        mark(s, op),
{
    reveal_strlit("add");
    reveal_strlit("sub");
    reveal_strlit("mul");
    reveal_strlit("div");
    reveal_strlit("matmul");
    reveal_strlit("relu");
    reveal_strlit("gelu");
    reveal_strlit("embedding");
    reveal_strlit("cross_entropy");
    reveal_strlit("fused_attention");
    reveal_strlit("reshape");
    reveal_strlit("transpose_");
    reveal_strlit("permute_");
    reveal_strlit("softmax_");
    reveal_strlit("layernorm_");
    reveal_strlit("sum_");
    reveal_strlit("mean_");
    reveal_strlit("conv2d_");
    reveal_strlit("maxpool2d_");
    reveal_strlit("avgpool2d_");
    reveal_strlit("batchnorm_");
    match op {
        OpType::Transpose { .. } => lemma_starts3(s, "transpose_"@, 't', 'r', 'a'),
        OpType::Permute { .. } => lemma_starts3(s, "permute_"@, 'p', 'e', 'r'),
        OpType::Softmax { .. } => lemma_starts3(s, "softmax_"@, 's', 'o', 'f'),
        OpType::LayerNorm { .. } => lemma_starts3(s, "layernorm_"@, 'l', 'a', 'y'),
        OpType::Sum { .. } => lemma_starts3(s, "sum_"@, 's', 'u', 'm'),
        OpType::Mean { .. } => lemma_starts3(s, "mean_"@, 'm', 'e', 'a'),
        OpType::Conv2d { .. } => lemma_starts3(s, "conv2d_"@, 'c', 'o', 'n'),
        OpType::MaxPool2d { .. } => lemma_starts3(s, "maxpool2d_"@, 'm', 'a', 'x'),
        OpType::AvgPool2d { .. } => lemma_starts3(s, "avgpool2d_"@, 'a', 'v', 'g'),
        OpType::BatchNorm { .. } => lemma_starts3(s, "batchnorm_"@, 'b', 'a', 't'),
        _ => {},
    }
}

/// A name names one operation.
pub proof fn law_name_unique(s: Seq<char>, eps: u32, a: OpType, b: OpType)
    requires
        names(s, eps, a),
        names(s, eps, b),
    ensures
        same_op(a, b),
{
    lemma_mark(s, eps, a);
    lemma_mark(s, eps, b);
    reveal_strlit("true");
    reveal_strlit("false");
    match (a, b) {
        (OpType::Permute { axes: x }, OpType::Permute { axes: y }) => {
            assert forall|i: int| 0 <= i < x@.len() implies x@[i] == y@[i] by {
                assert(number(fields(behind(s, "permute_"@), ',')[i]) == Some(x@[i]));
                assert(number(fields(behind(s, "permute_"@), ',')[i]) == Some(y@[i]));
            }
            assert(x@ =~= y@);
        },
        (OpType::Transpose { dim0, dim1 }, OpType::Transpose { dim0: e0, dim1: e1 }) => {
            let (m, n) = (seq![dim0, dim1], seq![e0, e1]);
            assert(m[0] == dim0 && m[1] == dim1 && n[0] == e0 && n[1] == e1);
        },
        (OpType::Conv2d { stride, padding }, OpType::Conv2d { stride: s2, padding: p2 }) => {
            let (m, n) = (seq![stride, padding], seq![s2, p2]);
            assert(m[0] == stride && m[1] == padding && n[0] == s2 && n[1] == p2);
        },
        (
            OpType::MaxPool2d { kernel_size, stride, padding },
            OpType::MaxPool2d { kernel_size: k2, stride: s2, padding: p2 },
        ) => {
            let (m, n) = (seq![kernel_size, stride, padding], seq![k2, s2, p2]);
            assert(m[0] == kernel_size && m[1] == stride && m[2] == padding);
            assert(n[0] == k2 && n[1] == s2 && n[2] == p2);
        },
        (
            OpType::AvgPool2d { kernel_size, stride, padding },
            OpType::AvgPool2d { kernel_size: k2, stride: s2, padding: p2 },
        ) => {
            let (m, n) = (seq![kernel_size, stride, padding], seq![k2, s2, p2]);
            assert(m[0] == kernel_size && m[1] == stride && m[2] == padding);
            assert(n[0] == k2 && n[1] == s2 && n[2] == p2);
        },
        (OpType::BatchNorm { training, .. }, OpType::BatchNorm { training: t2, .. }) => {
            assert("true"@.len() != "false"@.len());
        },
        _ => {},
    }
}

/// Reads the first `n` arguments as numbers.
fn read_numbers(s: &Vec<char>, p: &str, n: usize) -> (r: Option<Vec<usize>>)
    requires
        starts(s@, p@),
    ensures
        r matches Some(ns) ==> ns@.len() == n && numbers(s@, p@, ns@),
        r is None ==> forall|ns: Seq<usize>| ns.len() == n ==> !#[trigger] numbers(s@, p@, ns),
{
    let parts = split(&rest_of(s, p.unicode_len()), '_');
    assert(views(parts@) == args(s@, p@));
    if parts.len() < n {
        return None;
    }
    let mut out: Vec<usize> = Vec::new();
    let mut i: usize = 0;
    while i < n
        invariant
            i <= n,
            n <= parts@.len(),
            views(parts@) == args(s@, p@),
            out@.len() == i,
            forall|k: int| 0 <= k < i ==> number(args(s@, p@)[k]) == Some(#[trigger] out@[k]),
        decreases n - i,
    {
        assert(parts@[i as int]@ == args(s@, p@)[i as int]);
        match parse_number(&parts[i]) {
            Some(v) => {
                out.push(v);
            },
            None => {
                proof {
                    assert forall|ns: Seq<usize>| ns.len() == n implies !#[trigger] numbers(
                        s@,
                        p@,
                        ns,
                    ) by {
                        if numbers(s@, p@, ns) {
                            assert(number(args(s@, p@)[i as int]) == Some(ns[i as int]));
                        }
                    }
                }
                return None;
            },
        }
        i = i + 1;
    }
    Some(out)
}

/// Reads an axis and whether it is kept.
fn read_reduce(s: &Vec<char>, p: &str) -> (r: Option<(usize, bool)>)
    requires
        starts(s@, p@),
    ensures
        r matches Some(a) ==> reduces(s@, p@, a.0, a.1),
        r is None ==> forall|dim: usize, keep: bool| !#[trigger] reduces(s@, p@, dim, keep),
{
    let parts = split(&rest_of(s, p.unicode_len()), '_');
    assert(views(parts@) == args(s@, p@));
    if parts.len() < 2 {
        return None;
    }
    assert(parts@[0]@ == args(s@, p@)[0]);
    assert(parts@[1]@ == args(s@, p@)[1]);
    match parse_number(&parts[0]) {
        Some(dim) => Some((dim, is_text(&parts[1], "1"))),
        None => None,
    }
}

/// Reads the axes of a permutation.
fn read_axes(s: &Vec<char>) -> (r: Option<Vec<usize>>)
    requires
        starts(s@, "permute_"@),
    ensures
        r matches Some(axes) ==> permutes(s@, axes@),
        r is None ==> forall|axes: Seq<usize>| !#[trigger] permutes(s@, axes),
{
    let parts = split(&rest_of(s, "permute_".unicode_len()), ',');
    let ghost fs = fields(behind(s@, "permute_"@), ',');
    assert(views(parts@) == fs);
    let mut out: Vec<usize> = Vec::new();
    let mut i: usize = 0;
    while i < parts.len()
        invariant
            i <= parts@.len(),
            views(parts@) == fs,
            fs == fields(behind(s@, "permute_"@), ','),
            starts(s@, "permute_"@),
            out@.len() == i,
            forall|k: int| 0 <= k < i ==> number(fs[k]) == Some(#[trigger] out@[k]),
        decreases parts@.len() - i,
    {
        assert(parts@[i as int]@ == fs[i as int]);
        match parse_number(&parts[i]) {
            Some(v) => {
                out.push(v);
            },
            None => {
                proof {
                    assert forall|axes: Seq<usize>| !#[trigger] permutes(s@, axes) by {
                        if permutes(s@, axes) {
                            assert(number(fs[i as int]) == Some(axes[i as int]));
                        }
                    }
                }
                return None;
            },
        }
        i = i + 1;
    }
    Some(out)
}

/// No operation has the name.
pub open spec fn nameless(s: Seq<char>, eps: u32) -> bool {
    forall|op: OpType| !#[trigger] names(s, eps, op)
}

/// Reads the name of an operation that has arguments, by its beginning.
#[verifier::rlimit(40)]
fn parse_args(s: &Vec<char>, eps: u32) -> (r: Option<OpType>)
    ensures
        r matches Some(op) ==> names(s@, eps, op),
        r is None ==> forall|op: OpType| #[trigger]
            names(s@, eps, op) ==> (op is Add || op is Sub || op is Mul || op is Div || op is Matmul
                || op is Relu || op is Gelu || op is Embedding || op is CrossEntropy
                || op is FusedAttention || op is Reshape),
{
    proof {
        assert forall|op: OpType| #[trigger] names(s@, eps, op) implies mark(s@, op) by {
            lemma_mark(s@, eps, op);
        }
        reveal_strlit("transpose_");
        reveal_strlit("permute_");
        reveal_strlit("softmax_");
        reveal_strlit("layernorm_");
        reveal_strlit("sum_");
        reveal_strlit("mean_");
        reveal_strlit("conv2d_");
        reveal_strlit("maxpool2d_");
        reveal_strlit("avgpool2d_");
        reveal_strlit("batchnorm_");
    }
    if begins(s, "transpose_") {
        proof {
            lemma_starts3(s@, "transpose_"@, 't', 'r', 'a');
        }
        return match read_numbers(s, "transpose_", 2) {
            Some(ns) => {
                assert(ns@ =~= seq![ns@[0], ns@[1]]);
                Some(OpType::Transpose { dim0: ns[0], dim1: ns[1] })
            },
            None => None,
        };
    }
    if begins(s, "permute_") {
        proof {
            lemma_starts3(s@, "permute_"@, 'p', 'e', 'r');
        }
        return match read_axes(s) {
            Some(axes) => Some(OpType::Permute { axes }),
            None => None,
        };
    }
    if begins(s, "softmax_") {
        proof {
            lemma_starts3(s@, "softmax_"@, 's', 'o', 'f');
        }
        return match parse_number(&rest_of(s, "softmax_".unicode_len())) {
            Some(dim) => Some(OpType::Softmax { dim }),
            None => None,
        };
    }
    if begins(s, "layernorm_") {
        return Some(OpType::LayerNorm { eps_bits: eps });
    }
    if begins(s, "sum_") {
        proof {
            lemma_starts3(s@, "sum_"@, 's', 'u', 'm');
        }
        return match read_reduce(s, "sum_") {
            Some(a) => Some(OpType::Sum { dim: a.0, keep_dim: a.1 }),
            None => None,
        };
    }
    if begins(s, "mean_") {
        proof {
            lemma_starts3(s@, "mean_"@, 'm', 'e', 'a');
        }
        return match read_reduce(s, "mean_") {
            Some(a) => Some(OpType::Mean { dim: a.0, keep_dim: a.1 }),
            None => None,
        };
    }
    parse_image_args(s, eps)
}

/// Reads the name of an operation on images.
#[verifier::rlimit(40)]
fn parse_image_args(s: &Vec<char>, eps: u32) -> (r: Option<OpType>)
    requires
        !starts(s@, "transpose_"@),
        !starts(s@, "permute_"@),
        !starts(s@, "softmax_"@),
        !starts(s@, "layernorm_"@),
        !starts(s@, "sum_"@),
        !starts(s@, "mean_"@),
    ensures
        r matches Some(op) ==> names(s@, eps, op),
        r is None ==> forall|op: OpType| #[trigger]
            names(s@, eps, op) ==> (op is Add || op is Sub || op is Mul || op is Div || op is Matmul
                || op is Relu || op is Gelu || op is Embedding || op is CrossEntropy
                || op is FusedAttention || op is Reshape),
{
    proof {
        assert forall|op: OpType| #[trigger] names(s@, eps, op) implies mark(s@, op) by {
            lemma_mark(s@, eps, op);
        }
        reveal_strlit("conv2d_");
        reveal_strlit("maxpool2d_");
        reveal_strlit("avgpool2d_");
        reveal_strlit("batchnorm_");
    }
    if begins(s, "conv2d_") {
        proof {
            lemma_starts3(s@, "conv2d_"@, 'c', 'o', 'n');
        }
        return match read_numbers(s, "conv2d_", 2) {
            Some(ns) => {
                assert(ns@ =~= seq![ns@[0], ns@[1]]);
                Some(OpType::Conv2d { stride: ns[0], padding: ns[1] })
            },
            None => None,
        };
    }
    if begins(s, "maxpool2d_") {
        proof {
            lemma_starts3(s@, "maxpool2d_"@, 'm', 'a', 'x');
        }
        return match read_numbers(s, "maxpool2d_", 3) {
            Some(ns) => {
                assert(ns@ =~= seq![ns@[0], ns@[1], ns@[2]]);
                Some(OpType::MaxPool2d { kernel_size: ns[0], stride: ns[1], padding: ns[2] })
            },
            None => None,
        };
    }
    if begins(s, "avgpool2d_") {
        proof {
            lemma_starts3(s@, "avgpool2d_"@, 'a', 'v', 'g');
        }
        return match read_numbers(s, "avgpool2d_", 3) {
            Some(ns) => {
                assert(ns@ =~= seq![ns@[0], ns@[1], ns@[2]]);
                Some(OpType::AvgPool2d { kernel_size: ns[0], stride: ns[1], padding: ns[2] })
            },
            None => None,
        };
    }
    if begins(s, "batchnorm_") {
        proof {
            lemma_starts3(s@, "batchnorm_"@, 'b', 'a', 't');
        }
        let parts = split(&rest_of(s, "batchnorm_".unicode_len()), '_');
        assert(views(parts@) == args(s@, "batchnorm_"@));
        if parts.len() < 2 {
            return None;
        }
        assert(parts@[0]@ == args(s@, "batchnorm_"@)[0]);
        if is_text(&parts[0], "true") {
            return Some(OpType::BatchNorm { training: true, eps_bits: eps });
        }
        if is_text(&parts[0], "false") {
            return Some(OpType::BatchNorm { training: false, eps_bits: eps });
        }
        return None;
    }
    None
}

/// Reads the name of an operation, where the number that it writes for a stabiliser has the
/// pattern `eps`.
pub fn parse_op(name: &str, eps: u32) -> (r: Option<OpType>)
    ensures
        r matches Some(op) ==> names(name@, eps, op),
        r is None ==> nameless(name@, eps),
{
    let s = chars_of(name);
    if is_text(&s, "reshape") {
        return Some(OpType::Reshape);
    }
    match parse_args(&s, eps) {
        Some(op) => {
            return Some(op);
        },
        None => {},
    }
    if is_text(&s, "add") {
        return Some(OpType::Add);
    }
    if is_text(&s, "sub") {
        return Some(OpType::Sub);
    }
    if is_text(&s, "mul") {
        return Some(OpType::Mul);
    }
    if is_text(&s, "div") {
        return Some(OpType::Div);
    }
    if is_text(&s, "matmul") {
        return Some(OpType::Matmul);
    }
    if is_text(&s, "relu") {
        return Some(OpType::Relu);
    }
    if is_text(&s, "gelu") {
        return Some(OpType::Gelu);
    }
    if is_text(&s, "embedding") {
        return Some(OpType::Embedding);
    }
    if is_text(&s, "cross_entropy") {
        return Some(OpType::CrossEntropy);
    }
    if is_text(&s, "fused_attention") {
        return Some(OpType::FusedAttention);
    }
    None
}

/// Records the operation that a name stands for, as the history of its output.
pub fn record_op_callback<S>(
    op_name: &str,
    eps: u32,
    inputs: &[&Tensor],
    output: &Tensor,
    rt: &mut Runtime<S>,
)
    requires
        old(rt).wf(),
        can_record(*old(rt), derefs(inputs@)),
        output.valid(old(rt).mem),
        exists|op: OpType| names(op_name@, eps, op),
    ensures
        final(rt).wf(),
        exists|op: OpType| #[trigger]
            names(op_name@, eps, op) && recorded(
                *old(rt),
                *final(rt),
                op,
                derefs(inputs@),
                0,
                *output,
            ),
{
    match parse_op(op_name, eps) {
        Some(op) => {
            assert(names(op_name@, eps, op));
            rt.record_op(op, inputs, 0, output);
        },
        None => {
            assert(false);
        },
    }
}

/// Numbers between underscores.
pub open spec fn listed(ns: Seq<usize>, sep: char) -> Seq<char>
    decreases ns.len(),
{
    if ns.len() == 0 {
        Seq::empty()
    } else if ns.len() == 1 {
        decimal(ns[0] as nat)
    } else {
        listed(ns.drop_last(), sep).push(sep) + decimal(ns.last() as nat)
    }
}

/// The name of an operation; `eps` is how the number of a stabiliser is written.
pub open spec fn op_text(op: OpType, eps: Seq<char>) -> Option<Seq<char>> {
    match op {
        OpType::Add => Some("add"@),
        OpType::Sub => Some("sub"@),
        OpType::Mul => Some("mul"@),
        OpType::Div => Some("div"@),
        OpType::Matmul => Some("matmul"@),
        OpType::Relu => Some("relu"@),
        OpType::Gelu => Some("gelu"@),
        OpType::Embedding => Some("embedding"@),
        OpType::CrossEntropy => Some("cross_entropy"@),
        OpType::FusedAttention => Some("fused_attention"@),
        OpType::Reshape => Some("reshape"@),
        OpType::Transpose { dim0, dim1 } => Some("transpose_"@ + listed(seq![dim0, dim1], '_')),
        OpType::Permute { axes } => Some("permute_"@ + listed(axes@, ',')),
        OpType::Softmax { dim } => Some("softmax_"@ + decimal(dim as nat)),
        OpType::LayerNorm { .. } => Some("layernorm_"@ + eps),
        OpType::Sum { dim, keep_dim } => Some("sum_"@ + listed(seq![dim, flag(keep_dim)], '_')),
        OpType::Mean { dim, keep_dim } => Some("mean_"@ + listed(seq![dim, flag(keep_dim)], '_')),
        OpType::Conv2d { stride, padding } => Some(
            "conv2d_"@ + listed(seq![stride, padding], '_'),
        ),
        OpType::MaxPool2d { kernel_size, stride, padding } => Some(
            "maxpool2d_"@ + listed(seq![kernel_size, stride, padding], '_'),
        ),
        OpType::AvgPool2d { kernel_size, stride, padding } => Some(
            "avgpool2d_"@ + listed(seq![kernel_size, stride, padding], '_'),
        ),
        OpType::BatchNorm { training, .. } => Some(
            "batchnorm_"@ + (if training {
                "true"@
            } else {
                "false"@
            }).push('_') + eps,
        ),
        OpType::Checkpoint => None,
    }
}

/// A flag as a number.
pub open spec fn flag(b: bool) -> usize {
    if b {
        1
    } else {
        0
    }
}

/// The arguments of a list are read back.
proof fn lemma_listed(ns: Seq<usize>, sep: char)
    requires
        ns.len() > 0,
        sep == '_' || sep == ',',
    ensures
        fields(listed(ns, sep), sep).len() == ns.len(),
        forall|i: int|
            0 <= i < ns.len() ==> fields(listed(ns, sep), sep)[i] == decimal(
                #[trigger] ns[i] as nat,
            ),
    decreases ns.len(),
{
    law_number_decimal(ns.last());
    if ns.len() == 1 {
        lemma_fields_single(decimal(ns[0] as nat), sep);
    } else {
        let before = ns.drop_last();
        lemma_listed(before, sep);
        lemma_fields_join(listed(before, sep), sep, decimal(ns.last() as nat));
        assert forall|i: int| 0 <= i < ns.len() implies fields(listed(ns, sep), sep)[i] == decimal(
            #[trigger] ns[i] as nat,
        ) by {
            if i < before.len() {
                assert(before[i] == ns[i]);
            }
        }
    }
}

proof fn lemma_behind(p: Seq<char>, t: Seq<char>)
    ensures
        starts(p + t, p),
        behind(p + t, p) == t,
{
    assert((p + t).subrange(0, p.len() as int) =~= p);
    assert(behind(p + t, p) =~= t);
}

proof fn lemma_numbers(p: Seq<char>, ns: Seq<usize>)
    requires
        ns.len() > 0,
    ensures
        numbers(p + listed(ns, '_'), p, ns),
{
    lemma_behind(p, listed(ns, '_'));
    lemma_listed(ns, '_');
    assert forall|i: int| 0 <= i < ns.len() implies number(args(p + listed(ns, '_'), p)[i]) == Some(
        #[trigger] ns[i],
    ) by {
        law_number_decimal(ns[i]);
    }
}

proof fn lemma_reduces(p: Seq<char>, dim: usize, keep_dim: bool)
    ensures
        reduces(p + listed(seq![dim, flag(keep_dim)], '_'), p, dim, keep_dim),
{
    let ns = seq![dim, flag(keep_dim)];
    lemma_numbers(p, ns);
    lemma_behind(p, listed(ns, '_'));
    lemma_listed(ns, '_');
    assert(ns[0] == dim && ns[1] == flag(keep_dim));
    reveal_strlit("1");
    assert(decimal(1) =~= "1"@);
    assert(decimal(0)[0] == '0');
}

/// What an operation is recorded under is read back as the operation: for a stabiliser, as the
/// pattern of the number that was written.
pub proof fn law_op_text(op: OpType, eps_text: Seq<char>, eps: u32)
    requires
        !(op is Checkpoint),
        op matches OpType::LayerNorm { eps_bits } ==> eps_bits == eps,
        op matches OpType::BatchNorm { training, eps_bits } ==> eps_bits == eps
            && !eps_text.contains('_'),
        op matches OpType::Permute { axes } ==> axes@.len() > 0,
    ensures
        op_text(op, eps_text) is Some,
        names(op_text(op, eps_text)->0, eps, op),
{
    match op {
        OpType::Transpose { dim0, dim1 } => lemma_numbers("transpose_"@, seq![dim0, dim1]),
        OpType::Permute { axes } => {
            lemma_behind("permute_"@, listed(axes@, ','));
            lemma_listed(axes@, ',');
            assert forall|i: int| 0 <= i < axes@.len() implies number(
                fields(listed(axes@, ','), ',')[i],
            ) == Some(#[trigger] axes@[i]) by {
                law_number_decimal(axes@[i]);
            }
        },
        OpType::Softmax { dim } => {
            lemma_behind("softmax_"@, decimal(dim as nat));
            law_number_decimal(dim);
        },
        OpType::LayerNorm { .. } => lemma_behind("layernorm_"@, eps_text),
        OpType::Sum { dim, keep_dim } => lemma_reduces("sum_"@, dim, keep_dim),
        OpType::Mean { dim, keep_dim } => lemma_reduces("mean_"@, dim, keep_dim),
        OpType::Conv2d { stride, padding } => lemma_numbers("conv2d_"@, seq![stride, padding]),
        OpType::MaxPool2d { kernel_size, stride, padding } => lemma_numbers(
            "maxpool2d_"@,
            seq![kernel_size, stride, padding],
        ),
        OpType::AvgPool2d { kernel_size, stride, padding } => lemma_numbers(
            "avgpool2d_"@,
            seq![kernel_size, stride, padding],
        ),
        OpType::BatchNorm { training, .. } => {
            let m = if training {
                "true"@
            } else {
                "false"@
            };
            let p = "batchnorm_"@;
            reveal_strlit("true");
            reveal_strlit("false");
            assert(p + m.push('_') + eps_text =~= p + (m.push('_') + eps_text));
            lemma_behind(p, m.push('_') + eps_text);
            assert(!m.contains('_'));
            lemma_fields_single(m, '_');
            lemma_fields_join(m, '_', eps_text);
        },
        _ => {},
    }
}

/// Writes numbers between separators.
fn push_list(out: &mut Vec<char>, ns: &[usize], sep: char)
    ensures
        final(out)@ == old(out)@ + listed(ns@, sep),
{
    let ghost before = out@;
    let mut i: usize = 0;
    assert(before + listed(ns@.take(0), sep) =~= before);
    while i < ns.len()
        invariant
            i <= ns@.len(),
            out@ == before + listed(ns@.take(i as int), sep),
        decreases ns@.len() - i,
    {
        let ghost head = ns@.take(i as int);
        let ghost next = ns@.take(i + 1);
        assert(next.drop_last() =~= head);
        assert(next.last() == ns@[i as int]);
        if i > 0 {
            out.push(sep);
        }
        push_number(out, ns[i] as u64);
        i = i + 1;
        assert(out@ =~= before + listed(next, sep));
    }
    assert(ns@.take(ns@.len() as int) =~= ns@);
}

/// Writes the name of an operation; `eps` is how the number of a stabiliser is written.
pub fn op_name(op: &OpType, eps: &str) -> (r: Option<Vec<char>>)
    ensures
        r is Some == op_text(*op, eps@) is Some,
        r matches Some(s) ==> s@ == op_text(*op, eps@)->0,
{
    let mut out: Vec<char> = Vec::new();
    let ghost none = Seq::<char>::empty();
    match op {
        OpType::Add => push_text(&mut out, "add"),
        OpType::Sub => push_text(&mut out, "sub"),
        OpType::Mul => push_text(&mut out, "mul"),
        OpType::Div => push_text(&mut out, "div"),
        OpType::Matmul => push_text(&mut out, "matmul"),
        OpType::Relu => push_text(&mut out, "relu"),
        OpType::Gelu => push_text(&mut out, "gelu"),
        OpType::Embedding => push_text(&mut out, "embedding"),
        OpType::CrossEntropy => push_text(&mut out, "cross_entropy"),
        OpType::FusedAttention => push_text(&mut out, "fused_attention"),
        OpType::Reshape => push_text(&mut out, "reshape"),
        OpType::Transpose { dim0, dim1 } => {
            push_text(&mut out, "transpose_");
            let ns: [usize; 2] = [*dim0, *dim1];
            assert(ns@ =~= seq![*dim0, *dim1]);
            push_list(&mut out, ns.as_slice(), '_');
        },
        OpType::Permute { axes } => {
            push_text(&mut out, "permute_");
            push_list(&mut out, axes.as_slice(), ',');
        },
        OpType::Softmax { dim } => {
            push_text(&mut out, "softmax_");
            push_number(&mut out, *dim as u64);
        },
        OpType::LayerNorm { .. } => {
            push_text(&mut out, "layernorm_");
            push_text(&mut out, eps);
        },
        OpType::Sum { dim, keep_dim } => {
            push_text(&mut out, "sum_");
            let ns: [usize; 2] = [*dim, if *keep_dim { 1 } else { 0 }];
            assert(ns@ =~= seq![*dim, flag(*keep_dim)]);
            push_list(&mut out, ns.as_slice(), '_');
        },
        OpType::Mean { dim, keep_dim } => {
            push_text(&mut out, "mean_");
            let ns: [usize; 2] = [*dim, if *keep_dim { 1 } else { 0 }];
            assert(ns@ =~= seq![*dim, flag(*keep_dim)]);
            push_list(&mut out, ns.as_slice(), '_');
        },
        OpType::Conv2d { stride, padding } => {
            push_text(&mut out, "conv2d_");
            let ns: [usize; 2] = [*stride, *padding];
            assert(ns@ =~= seq![*stride, *padding]);
            push_list(&mut out, ns.as_slice(), '_');
        },
        OpType::MaxPool2d { kernel_size, stride, padding } => {
            push_text(&mut out, "maxpool2d_");
            let ns: [usize; 3] = [*kernel_size, *stride, *padding];
            assert(ns@ =~= seq![*kernel_size, *stride, *padding]);
            push_list(&mut out, ns.as_slice(), '_');
        },
        OpType::AvgPool2d { kernel_size, stride, padding } => {
            push_text(&mut out, "avgpool2d_");
            let ns: [usize; 3] = [*kernel_size, *stride, *padding];
            assert(ns@ =~= seq![*kernel_size, *stride, *padding]);
            push_list(&mut out, ns.as_slice(), '_');
        },
        OpType::BatchNorm { training, .. } => {
            push_text(&mut out, "batchnorm_");
            if *training {
                push_text(&mut out, "true");
            } else {
                push_text(&mut out, "false");
            }
            out.push('_');
            push_text(&mut out, eps);
        },
        OpType::Checkpoint => {
            return None;
        },
    }
    assert(out@ =~= op_text(*op, eps@)->0);
    Some(out)
}

} // verus!

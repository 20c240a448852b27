//! Normalisation, lookup and loss on the device, and their gradients.
use vstd::prelude::*;
use crate::create::{device_added, device_room, device_roomy};
use crate::cuda::command::{launch_over, launchable, over_elems, Kernel, LaunchView};
use crate::cuda::forward::{
    lemma_nothing_queued, lemma_quotient, list3, list4, made, mean, on_cuda, packed,
    reduction_launch, room_for, unless_empty,
};
use crate::cuda::images::{device_zeros3, lemma_queued3, lemma_still_made, room_for3};
use crate::cuda::plan::{
    as_params, buffers, buffers_of, on_device, params_of, planned, planned3, queued,
};
use crate::cpu::norm::lemma_single;
use crate::cpu::reduce::reduced_dims;
use crate::handle::{no_meta, undisturbed};
use crate::index::{lemma_bounded_fits, lemma_numel_zero, numel};
use crate::custody::discarded;
use crate::runtime::Runtime;
use crate::scalar::{one, zero, Constant, Scalar};
use crate::shape::Shape;
use crate::tape::derefs;
use crate::tensor::Tensor;

verus! {

/// A flag as a number.
pub open spec fn flag<S: Scalar>(b: bool) -> S {
    if b {
        one()
    } else {
        zero()
    }
}

/// The extents of an image batch as numbers, with the mode.
pub open spec fn image_params<S: Scalar>(d: Seq<usize>, training: bool) -> Seq<S> {
    seq![
        S::count_spec(d[0]),
        S::count_spec(d[1]),
        S::count_spec(d[2]),
        S::count_spec(d[3]),
        flag::<S>(training),
    ]
}

fn make_image_params<S: Scalar>(d: &Shape, training: bool) -> (r: Vec<S>)
    requires
        d@.len() == 4,
    ensures
        r@ == image_params::<S>(d@, training),
{
    let mut p: Vec<S> = Vec::new();
    p.push(S::count(d.dim(0)));
    p.push(S::count(d.dim(1)));
    p.push(S::count(d.dim(2)));
    p.push(S::count(d.dim(3)));
    p.push(
        if training {
            S::constant(Constant::One)
        } else {
            S::constant(Constant::Zero)
        },
    );
    assert(p@ =~= image_params::<S>(d@, training));
    p
}

/// The operands of a batch normalisation on the device.
pub open spec fn batchnorm_ready<S>(
    rt: Runtime<S>,
    x: Tensor,
    gamma: Tensor,
    beta: Tensor,
    mean: Tensor,
    var: Tensor,
) -> bool {
    &&& packed(rt, x)
    &&& x.shape@.len() == 4
    &&& on_cuda(rt, gamma)
    &&& on_cuda(rt, beta)
    &&& on_cuda(rt, mean)
    &&& on_cuda(rt, var)
    &&& launchable(x.shape@[1] as nat)
}

/// The launch of the batch normalisation kernel: one thread for each channel.
pub open spec fn batchnorm_launch<S: Scalar>(
    x: Tensor,
    params: (Tensor, Tensor, Tensor, Tensor),
    out: Tensor,
    training: bool,
    momentum: S,
    eps: S,
) -> Seq<LaunchView<S>> {
    unless_empty(
        numel(x.shape@),
        over_elems(
            Kernel::BatchnormForward,
            x.shape@[1] as nat,
            buffers_of(seq![x, params.0, params.1, params.2, params.3, out]),
            Seq::empty(),
            image_params::<S>(x.shape@, training).push(momentum).push(eps),
            Seq::empty(),
        ),
    )
}

/// Two-dimensional batch normalization; the kernel updates the running statistics in training.
pub fn batchnorm<S: Scalar>(
    x: &Tensor,
    gamma: &Tensor,
    beta: &Tensor,
    running_mean: &Tensor,
    running_var: &Tensor,
    training: bool,
    momentum: S,
    eps: S,
    rt: &mut Runtime<S>,
) -> (r: Tensor)
    requires
        old(rt).wf(),
        batchnorm_ready(*old(rt), *x, *gamma, *beta, *running_mean, *running_var),
        old(rt).mem.cells.room() > 0,
        device_room(*old(rt), numel(x.shape@) as usize),
    ensures
        made(*old(rt), *final(rt)),
        on_device(*final(rt), r, x.shape@),
        planned(
            *old(rt),
            *final(rt),
            r,
            batchnorm_launch(
                *x,
                (*gamma, *beta, *running_mean, *running_var),
                r,
                training,
                momentum,
                eps,
            ),
        ),
{
    let ghost before = *rt;
    proof {
        lemma_bounded_fits(x.shape@);
    }
    let n = x.shape.numel();
    let out = rt.device_zeros(x.shape);
    let ghost mid = *rt;
    if n == 0 {
        proof {
            lemma_nothing_queued(before, mid, out);
        }
        return out;
    }
    let mut params = make_image_params(&x.shape, training);
    params.push(momentum);
    params.push(eps);
    let ts: [&Tensor; 6] = [x, gamma, beta, running_mean, running_var, &out];
    proof {
        assert(derefs(ts@) =~= seq![*x, *gamma, *beta, *running_mean, *running_var, out]);
    }
    let bufs = buffers(ts.as_slice());
    let l = launch_over(
        Kernel::BatchnormForward,
        x.shape.dim(1),
        bufs,
        Vec::new(),
        params,
        Vec::new(),
    );
    rt.enqueue(l);
    proof {
        assert(l@.info =~= Seq::<i32>::empty());
        assert(l@.scalars =~= Seq::<i32>::empty());
        assert(queued(
            mid,
            *rt,
            batchnorm_launch(
                *x,
                (*gamma, *beta, *running_mean, *running_var),
                out,
                training,
                momentum,
                eps,
            ),
        ));
    }
    out
}

/// The launch of the batch normalisation gradient kernel: one thread for each channel.
pub open spec fn batchnorm_backward_launch<S: Scalar>(
    x: Tensor,
    params: (Tensor, Tensor, Tensor, Tensor),
    go: Tensor,
    out: (Tensor, Tensor, Tensor),
    training: bool,
    eps: S,
) -> Seq<LaunchView<S>> {
    unless_empty(
        numel(x.shape@),
        over_elems(
            Kernel::BatchnormBackward,
            x.shape@[1] as nat,
            buffers_of(
                seq![x, params.0, params.1, params.2, params.3, go, out.0, out.1, out.2],
            ),
            Seq::empty(),
            image_params::<S>(x.shape@, training).push(eps),
            Seq::empty(),
        ),
    )
}

fn vector_shape(n: usize) -> (r: Shape)
    ensures
        r.wf(),
        r@ == seq![n],
{
    let dims: [usize; 1] = [n];
    assert(dims@ =~= seq![n]);
    Shape::new(dims.as_slice())
}

/// The gradients of a batch normalization: input, weight, bias.
pub fn batchnorm_backward<S: Scalar>(
    x: &Tensor,
    gamma: &Tensor,
    beta: &Tensor,
    running_mean: &Tensor,
    running_var: &Tensor,
    grad_out: &Tensor,
    training: bool,
    eps: S,
    rt: &mut Runtime<S>,
) -> (r: (Tensor, Tensor, Tensor))
    requires
        old(rt).wf(),
        batchnorm_ready(*old(rt), *x, *gamma, *beta, *running_mean, *running_var),
        packed(*old(rt), *grad_out),
        room_for3(
            *old(rt),
            numel(x.shape@) + numel(seq![x.shape@[1]]) + numel(seq![x.shape@[1]]),
        ),
    ensures
        made(*old(rt), *final(rt)),
        on_device(*final(rt), r.0, x.shape@),
        on_device(*final(rt), r.1, seq![x.shape@[1]]),
        on_device(*final(rt), r.2, seq![x.shape@[1]]),
        planned3(
            *old(rt),
            *final(rt),
            r,
            batchnorm_backward_launch(
                *x,
                (*gamma, *beta, *running_mean, *running_var),
                *grad_out,
                r,
                training,
                eps,
            ),
        ),
{
    let ghost first = *rt;
    let c = x.shape.dim(1);
    let vector = vector_shape(c);
    proof {
        lemma_single(vector@, c);
        lemma_bounded_fits(x.shape@);
    }
    let outs = device_zeros3(x.shape, vector, vector, rt);
    let ghost m3 = *rt;
    let ghost ls = batchnorm_backward_launch::<S>(
        *x,
        (*gamma, *beta, *running_mean, *running_var),
        *grad_out,
        outs,
        training,
        eps,
    );
    if x.shape.numel() == 0 {
        proof {
            assert(ls =~= Seq::<LaunchView<S>>::empty());
            lemma_queued3(first, m3, m3, outs, ls);
        }
        return outs;
    }
    let mut params = make_image_params(&x.shape, training);
    params.push(eps);
    let ts: [&Tensor; 9] = [
        x,
        gamma,
        beta,
        running_mean,
        running_var,
        grad_out,
        &outs.0,
        &outs.1,
        &outs.2,
    ];
    proof {
        assert(derefs(ts@) =~= seq![
            *x,
            *gamma,
            *beta,
            *running_mean,
            *running_var,
            *grad_out,
            outs.0,
            outs.1,
            outs.2,
        ]);
    }
    let bufs = buffers(ts.as_slice());
    let l = launch_over(Kernel::BatchnormBackward, c, bufs, Vec::new(), params, Vec::new());
    proof {
        assert(l@ =~= ls[0]);
    }
    rt.enqueue(l);
    proof {
        assert(ls =~= seq![l@]);
        lemma_queued3(first, m3, *rt, outs, ls);
        lemma_still_made(first, m3, *rt, outs);
    }
    outs
}

/// The launch of the layer normalisation gradient kernel: one thread for each row.
pub open spec fn layernorm_backward_launch<S>(
    x: Tensor,
    weight: Tensor,
    bias: Tensor,
    go: Tensor,
    out: (Tensor, Tensor, Tensor),
    eps: S,
) -> Seq<LaunchView<S>> {
    let len = x.shape@.last();
    let n = numel(x.shape@) / (len as nat);
    unless_empty(
        numel(x.shape@),
        over_elems(
            Kernel::LayernormBackward,
            n,
            buffers_of(seq![x, weight, bias, go, out.0, out.1, out.2]),
            Seq::empty(),
            seq![eps],
            as_params(seq![len, n as usize]),
        ),
    )
}

/// The gradients of a layer normalization: input, weight, bias.
pub fn layernorm_backward<S: Scalar>(
    x: &Tensor,
    weight: &Tensor,
    bias: &Tensor,
    grad_out: &Tensor,
    eps: S,
    rt: &mut Runtime<S>,
) -> (r: (Tensor, Tensor, Tensor))
    requires
        old(rt).wf(),
        packed(*old(rt), *x),
        packed(*old(rt), *grad_out),
        on_cuda(*old(rt), *weight),
        on_cuda(*old(rt), *bias),
        numel(x.shape@) > 0 ==> x.shape@.len() > 0,
        launchable(numel(x.shape@)),
        room_for3(
            *old(rt),
            numel(x.shape@) + numel(weight.shape@) + numel(bias.shape@),
        ),
    ensures
        made(*old(rt), *final(rt)),
        on_device(*final(rt), r.0, x.shape@),
        on_device(*final(rt), r.1, weight.shape@),
        on_device(*final(rt), r.2, bias.shape@),
        planned3(
            *old(rt),
            *final(rt),
            r,
            layernorm_backward_launch(*x, *weight, *bias, *grad_out, r, eps),
        ),
{
    let ghost first = *rt;
    proof {
        lemma_bounded_fits(x.shape@);
    }
    let outs = device_zeros3(x.shape, weight.shape, bias.shape, rt);
    let ghost m3 = *rt;
    let ghost ls = layernorm_backward_launch::<S>(*x, *weight, *bias, *grad_out, outs, eps);
    let n = x.shape.numel();
    if n == 0 {
        proof {
            assert(ls =~= Seq::<LaunchView<S>>::empty());
            lemma_queued3(first, m3, m3, outs, ls);
        }
        return outs;
    }
    let rank = x.shape.rank();
    let len = x.shape.dim(rank - 1);
    proof {
        lemma_numel_zero(x.shape@);
        lemma_quotient(n as int, len as int);
    }
    let rows = n / len;
    let scalars: [usize; 2] = [len, rows];
    let mut params: Vec<S> = Vec::new();
    params.push(eps);
    let ts: [&Tensor; 7] = [x, weight, bias, grad_out, &outs.0, &outs.1, &outs.2];
    proof {
        assert(scalars@ =~= seq![len, rows]);
        assert(params@ =~= seq![eps]);
        assert(derefs(ts@) =~= seq![*x, *weight, *bias, *grad_out, outs.0, outs.1, outs.2]);
    }
    let bufs = buffers(ts.as_slice());
    let l = launch_over(
        Kernel::LayernormBackward,
        rows,
        bufs,
        Vec::new(),
        params,
        params_of(scalars.as_slice()),
    );
    proof {
        assert(l@ =~= ls[0]);
    }
    rt.enqueue(l);
    proof {
        assert(ls =~= seq![l@]);
        lemma_queued3(first, m3, *rt, outs, ls);
        lemma_still_made(first, m3, *rt, outs);
    }
    outs
}

/// The launch of the embedding gradient kernel: one thread for each index.
pub open spec fn embedding_backward_launch<S>(
    x: Tensor,
    weight: Tensor,
    go: Tensor,
    out: Tensor,
) -> Seq<LaunchView<S>> {
    let n = numel(x.shape@);
    unless_empty(
        n,
        over_elems(
            Kernel::EmbeddingBackward,
            n,
            buffers_of(seq![x, go, out]),
            Seq::empty(),
            Seq::empty(),
            as_params(seq![weight.shape@[0], weight.shape@[1], n as usize]),
        ),
    )
}

/// The gradient of an embedding with respect to its weight.
pub fn embedding_backward<S: Scalar>(
    x: &Tensor,
    weight: &Tensor,
    grad_out: &Tensor,
    rt: &mut Runtime<S>,
) -> (r: Tensor)
    requires
        old(rt).wf(),
        packed(*old(rt), *x),
        packed(*old(rt), *grad_out),
        on_cuda(*old(rt), *weight),
        weight.shape@.len() >= 2,
        launchable(numel(x.shape@)),
        room_for(*old(rt), numel(weight.shape@)),
    ensures
        made(*old(rt), *final(rt)),
        on_device(*final(rt), r, weight.shape@),
        planned(
            *old(rt),
            *final(rt),
            r,
            embedding_backward_launch(*x, *weight, *grad_out, r),
        ),
{
    let ghost before = *rt;
    proof {
        lemma_bounded_fits(x.shape@);
    }
    let n = x.shape.numel();
    let out = rt.device_zeros(weight.shape);
    let ghost mid = *rt;
    if n == 0 {
        proof {
            lemma_nothing_queued(before, mid, out);
        }
        return out;
    }
    let vocab = weight.shape.dim(0);
    let width = weight.shape.dim(1);
    let scalars: [usize; 3] = [vocab, width, n];
    proof {
        assert(scalars@ =~= seq![vocab, width, n]);
    }
    let l = launch_over(
        Kernel::EmbeddingBackward,
        n,
        list3(x, grad_out, &out),
        Vec::new(),
        Vec::new(),
        params_of(scalars.as_slice()),
    );
    rt.enqueue(l);
    proof {
        assert(l@.info =~= Seq::<i32>::empty());
        assert(l@.params =~= Seq::<S>::empty());
        assert(queued(mid, *rt, embedding_backward_launch(*x, *weight, *grad_out, out)));
    }
    out
}

/// The launch of the cross-entropy gradient kernel: one thread for each row.
pub open spec fn cross_entropy_backward_launch<S>(
    logits: Tensor,
    targets: Tensor,
    go: Tensor,
    out: Tensor,
) -> Seq<LaunchView<S>> {
    let rows = logits.shape@[0];
    unless_empty(
        rows as nat,
        over_elems(
            Kernel::CrossEntropyBackward,
            rows as nat,
            buffers_of(seq![logits, targets, go, out]),
            Seq::empty(),
            Seq::empty(),
            as_params(seq![rows, logits.shape@[1]]),
        ),
    )
}

/// The gradient of the cross-entropy loss with respect to the logits.
pub fn cross_entropy_backward<S: Scalar>(
    logits: &Tensor,
    targets: &Tensor,
    grad_out: &Tensor,
    rt: &mut Runtime<S>,
) -> (r: Tensor)
    requires
        old(rt).wf(),
        packed(*old(rt), *logits),
        packed(*old(rt), *grad_out),
        on_cuda(*old(rt), *targets),
        logits.shape@.len() >= 2,
        launchable(logits.shape@[0] as nat),
        room_for(*old(rt), numel(logits.shape@)),
    ensures
        made(*old(rt), *final(rt)),
        on_device(*final(rt), r, logits.shape@),
        planned(
            *old(rt),
            *final(rt),
            r,
            cross_entropy_backward_launch(*logits, *targets, *grad_out, r),
        ),
{
    let ghost before = *rt;
    let rows = logits.shape.dim(0);
    let vocab = logits.shape.dim(1);
    let out = rt.device_zeros(logits.shape);
    let ghost mid = *rt;
    if rows == 0 {
        proof {
            lemma_nothing_queued(before, mid, out);
        }
        return out;
    }
    let scalars: [usize; 2] = [rows, vocab];
    proof {
        assert(scalars@ =~= seq![rows, vocab]);
    }
    let l = launch_over(
        Kernel::CrossEntropyBackward,
        rows,
        list4(logits, targets, grad_out, &out),
        Vec::new(),
        Vec::new(),
        params_of(scalars.as_slice()),
    );
    rt.enqueue(l);
    proof {
        assert(l@.info =~= Seq::<i32>::empty());
        assert(l@.params =~= Seq::<S>::empty());
        assert(queued(
            mid,
            *rt,
            cross_entropy_backward_launch(*logits, *targets, *grad_out, out),
        ));
    }
    out
}


/// The launch of the cross-entropy kernel: one thread for each row.
pub open spec fn row_loss_launch<S>(logits: Tensor, targets: Tensor, rows: Tensor) -> LaunchView<
    S,
> {
    let n = logits.shape@[0];
    over_elems(
        Kernel::CrossEntropyForward,
        n as nat,
        buffers_of(seq![logits, targets, rows]),
        Seq::empty(),
        Seq::empty(),
        as_params(seq![n, logits.shape@[1]]),
    )
}

/// The step from `a` to `b` that makes the loss `r`: the losses of the rows in a buffer that is
/// given back, then their mean. Without rows the loss is 0.
pub open spec fn loss_planned<S>(
    a: Runtime<S>,
    b: Runtime<S>,
    logits: Tensor,
    targets: Tensor,
    r: Tensor,
) -> bool {
    if logits.shape@[0] == 0 {
        device_added(a, b, r, no_meta())
    } else {
        exists|m: Runtime<S>, n: Runtime<S>, rows: Tensor|
            {
                &&& #[trigger] planned(a, m, rows, seq![row_loss_launch(logits, targets, rows)])
                &&& #[trigger] planned(m, n, r, reduction_launch(rows, 0, r, Kernel::Mean))
                &&& discarded(n, b, rows)
            }
    }
}

/// Categorical cross-entropy loss.
pub fn cross_entropy<S: Scalar>(logits: &Tensor, targets: &Tensor, rt: &mut Runtime<S>) -> (r:
    Tensor)
    requires
        old(rt).wf(),
        packed(*old(rt), *logits),
        on_cuda(*old(rt), *targets),
        logits.shape@.len() >= 2,
        launchable(logits.shape@[0] as nat),
        old(rt).mem.cells.room() >= 2,
        device_roomy(*old(rt), 2, logits.shape@[0] + 1),
    ensures
        final(rt).wf(),
        r.owned(*final(rt)),
        undisturbed(*old(rt), *final(rt)),
        on_device(
            *final(rt),
            r,
            if logits.shape@[0] == 0 {
                seq![1usize]
            } else {
                Seq::<usize>::empty()
            },
        ),
        loss_planned(*old(rt), *final(rt), *logits, *targets, r),
{
    let ghost first = *rt;
    let n = logits.shape.dim(0);
    let vocab = logits.shape.dim(1);
    if n == 0 {
        let one = vector_shape(1);
        proof {
            lemma_single(one@, 1);
        }
        return rt.device_zeros(one);
    }
    let vector = vector_shape(n);
    proof {
        lemma_single(vector@, n);
    }
    let rows = rt.device_zeros(vector);
    let ghost mid = *rt;
    let scalars: [usize; 2] = [n, vocab];
    proof {
        assert(scalars@ =~= seq![n, vocab]);
    }
    let l = launch_over(
        Kernel::CrossEntropyForward,
        n,
        list3(logits, targets, &rows),
        Vec::new(),
        Vec::new(),
        params_of(scalars.as_slice()),
    );
    rt.enqueue(l);
    let ghost m = *rt;
    proof {
        assert(l@ =~= row_loss_launch::<S>(*logits, *targets, rows));
        assert(queued(mid, m, seq![row_loss_launch(*logits, *targets, rows)]));
        assert(planned(first, m, rows, seq![row_loss_launch(*logits, *targets, rows)]));
        assert(rows.owned(m));
        let dims = reduced_dims(rows.shape@, 0, false);
        assert(dims =~= Seq::<usize>::empty());
        assert(numel(dims) == 1);
    }
    let r = mean(&rows, 0, false, rt);
    let ghost k = *rt;
    proof {
        assert(r.shape@ =~= Seq::<usize>::empty());
        assert(rows.owned(k));
        lemma_fresh_pair(m, k, rows, r);
    }
    rt.discard(rows);
    proof {
        assert(planned(m, k, r, reduction_launch(rows, 0, r, Kernel::Mean)));
        lemma_rows_gone(first, mid, m, k, *rt, rows, r);
    }
    r
}

/// A buffer made later is another one.
proof fn lemma_fresh_pair<S>(a: Runtime<S>, b: Runtime<S>, old_t: Tensor, new_t: Tensor)
    requires
        a.wf(),
        exists|ls: Seq<LaunchView<S>>| planned(a, b, new_t, ls),
        old_t.owned(a),
        old_t.device is Cuda,
    ensures
        new_t.key() != old_t.key(),
        new_t.cell != old_t.cell,
        b.gradients == a.gradients,
        b.mem.arena == a.mem.arena,
{
    let ls = choose|ls: Seq<LaunchView<S>>| planned(a, b, new_t, ls);
    let mid = choose|mid: Runtime<S>|
        #[trigger] device_added(a, mid, new_t, no_meta()) && queued(mid, b, ls);
    assert(device_added(a, mid, new_t, no_meta()));
}

/// Giving the buffer of the row losses back disturbs nobody.
proof fn lemma_rows_gone<S>(
    first: Runtime<S>,
    mid: Runtime<S>,
    m: Runtime<S>,
    k: Runtime<S>,
    last: Runtime<S>,
    rows: Tensor,
    r: Tensor,
)
    requires
        first.wf(),
        device_added(first, mid, rows, no_meta()),
        rows.device is Cuda,
        undisturbed(first, mid),
        undisturbed(mid, m),
        undisturbed(m, k),
        m.mem == mid.mem,
        k.wf(),
        last.wf(),
        rows.owned(k),
        r.owned(k),
        r.key() != rows.key(),
        r.cell != rows.cell,
        exists|ls: Seq<LaunchView<S>>| planned(m, k, r, ls),
        discarded(k, last, rows),
        first.holds() == mid.holds(),
        mid.holds() == m.holds(),
        m.holds() == k.holds(),
    ensures
        undisturbed(first, last),
        r.owned(last),
{
    let ls = choose|ls: Seq<LaunchView<S>>| planned(m, k, r, ls);
    let mk = choose|mk: Runtime<S>|
        #[trigger] device_added(m, mk, r, no_meta()) && queued(mk, k, ls);
    assert forall|u: Tensor|
        u.owned(k) && u.cell != rows.cell && u.key() != rows.key() implies u.owned(last) && (
    u.device is Cpu ==> u.block(last.mem) == u.block(k.mem)) by {
        crate::custody::lemma_owners(last, u.key());
        assert(last.mem.refs(u.key()) == k.mem.refs(u.key()));
        assert(last.owners(u.key()) == k.owners(u.key()));
        crate::tape::lemma_valid_kept(k.mem, last.mem, u);
    }
    assert forall|u: Tensor| #[trigger] u.owned(first) implies {
        &&& u.owned(last)
        &&& u.device is Cpu ==> u.block(last.mem) == u.block(first.mem)
    } by {
        assert(u.owned(mid));
        assert(u.owned(m));
        assert(u.owned(k));
        assert(first.mem.cells@.contains_key(u.cell));
        assert(u.key() != rows.key()) by {
            crate::tape::lemma_valid_refs(first.mem, u);
        }
    }
}

} // verus!

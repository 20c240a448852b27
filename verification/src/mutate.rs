//! Changing the elements of tensors in place.
use vstd::prelude::*;
use crate::create::lemma_contiguous_value;
use crate::dense::Value;
use crate::handle::same_state;
use crate::index::{lemma_bounded_fits, numel};
use crate::perm::lemma_strided_row_major;
use crate::runtime::Runtime;
use crate::scalar::{one, Constant, Scalar};
use crate::storage::{Block, CpuStorage, Slot};
use crate::tape::count_key;
use crate::tensor::{Key, Memory, Tensor};

verus! {

/// The block of `t` holds `data` now, and nothing else changed.
pub open spec fn replaced<S>(a: Runtime<S>, b: Runtime<S>, t: Tensor, data: Seq<S>) -> bool {
    &&& same_state(a, b)
    &&& b.queue == a.queue
    &&& b.mem.cells == a.mem.cells
    &&& b.mem.cuda == a.mem.cuda
    &&& b.mem.arena@ == a.mem.arena@.insert(
        t.storage_id,
        Slot { block: Block::F32(data), refs: a.mem.arena@[t.storage_id].refs },
    )
    &&& b.mem.arena.room() == a.mem.arena.room()
    &&& b.mem.arena.shard() == a.mem.arena.shard()
    &&& b.mem.arena.next() == a.mem.arena.next()
}

/// What the caller owns stays the caller's; only tensors that share the block of `t` show other
/// elements.
pub open spec fn only_changes<S>(a: Runtime<S>, b: Runtime<S>, t: Tensor) -> bool {
    forall|u: Tensor|
        #![trigger u.owned(a)]
        #![trigger u.owned(b)]
        u.owned(a) ==> {
            &&& u.owned(b)
            &&& u.device is Cpu && u.storage_id != t.storage_id ==> u.block(b.mem) == u.block(a.mem)
        }
}

/// Replacing the contents of a block by as many elements keeps the runtime in order.
pub proof fn lemma_replaced<S>(a: Runtime<S>, b: Runtime<S>, t: Tensor, data: Seq<S>)
    requires
        a.wf(),
        b.mem.wf(),
        t.is_f32(a.mem),
        data.len() == numel(t.shape@),
        replaced(a, b, t, data),
    ensures
        b.wf(),
        b.holds() == a.holds(),
        only_changes(a, b, t),
        t.is_f32(b.mem),
        t.block(b.mem) == Block::F32(data),
        t.contiguous_spec() ==> t.value(b.mem) == (Value { dims: t.shape@, data }),
        forall|u: Tensor| #[trigger] u.valid(a.mem) ==> u.valid(b.mem),
{
    let hs = a.holds();
    assert(b.holds() == hs);
    assert forall|k: Key| #[trigger] b.mem.refs(k) == a.mem.refs(k) by {}
    assert forall|u: Tensor| #[trigger] u.valid(a.mem) implies u.valid(b.mem) by {}
    assert forall|i: int| 0 <= i < hs.len() implies (#[trigger] hs[i]).valid(b.mem) by {
        assert(hs[i].valid(a.mem));
    }
    assert forall|k: Key| #[trigger] count_key(hs, k) <= b.mem.refs(k) by {
        assert(b.mem.refs(k) == a.mem.refs(k));
    }
    assert forall|u: Tensor| #[trigger] u.owned(a) implies {
        &&& u.owned(b)
        &&& u.device is Cpu && u.storage_id != t.storage_id ==> u.block(b.mem) == u.block(a.mem)
    } by {
        assert(u.valid(a.mem));
        assert(b.mem.refs(u.key()) == a.mem.refs(u.key()));
    }
    if t.contiguous_spec() {
        lemma_bounded_fits(t.shape@);
        lemma_strided_row_major(data, t.shape@);
    }
}

/// `x + scale * y`, element by element.
pub open spec fn scaled_sum<S: Scalar>(x: Seq<S>, y: Seq<S>, scale: S) -> Seq<S> {
    Seq::new(x.len(), |i: int| S::add_spec(x[i], S::mul_spec(scale, y[i])))
}

/// Adds `scale * y` to `x`, element by element.
pub(crate) fn add_scaled<S: Scalar>(x: &mut Vec<S>, y: &[S], scale: S)
    requires
        old(x)@.len() == y@.len(),
    ensures
        final(x)@ == scaled_sum(old(x)@, y@, scale),
{
    let n: usize = x.len();
    let ghost before = x@;
    let mut i: usize = 0;
    while i < n
        invariant
            i <= n == before.len(),
            x@.len() == n,
            y@.len() == n,
            forall|k: int| 0 <= k < i ==> x@[k] == scaled_sum(before, y@, scale)[k],
            forall|k: int| i <= k < n ==> x@[k] == before[k],
        decreases n - i,
    {
        let v = x[i].add(scale.mul(y[i]));
        x[i] = v;
        i = i + 1;
    }
    assert(x@ =~= scaled_sum(before, y@, scale));
}

/// The gradient with the decayed weight added: `g + weight_decay * p`, or `g` when there is no
/// decay.
pub open spec fn decayed_grad<S: Scalar>(p: S, g: S, weight_decay: S) -> S {
    if S::eq_zero_spec(weight_decay) {
        g
    } else {
        S::add_spec(g, S::mul_spec(weight_decay, p))
    }
}

/// `momentum * velocity + g`
pub open spec fn next_velocity<S: Scalar>(p: S, g: S, v: S, momentum: S, weight_decay: S) -> S {
    S::add_spec(S::mul_spec(momentum, v), decayed_grad(p, g, weight_decay))
}

/// The velocities after a step of gradient descent with momentum.
pub open spec fn sgd_velocity<S: Scalar>(
    p: Seq<S>,
    g: Seq<S>,
    v: Seq<S>,
    momentum: S,
    weight_decay: S,
) -> Seq<S> {
    Seq::new(p.len(), |i: int| next_velocity(p[i], g[i], v[i], momentum, weight_decay))
}

/// The parameters after a step: `p - lr * velocity`
pub open spec fn sgd_params<S: Scalar>(
    p: Seq<S>,
    g: Seq<S>,
    v: Seq<S>,
    lr: S,
    momentum: S,
    weight_decay: S,
) -> Seq<S> {
    Seq::new(
        p.len(),
        |i: int|
            S::sub_spec(
                p[i],
                S::mul_spec(lr, next_velocity(p[i], g[i], v[i], momentum, weight_decay)),
            ),
    )
}

/// One step of gradient descent with momentum and weight decay.
pub(crate) fn sgd_update<S: Scalar>(
    params: &mut Vec<S>,
    grad: &[S],
    velocity: &mut Vec<S>,
    lr: S,
    momentum: S,
    weight_decay: S,
)
    requires
        old(params)@.len() == grad@.len(),
        old(velocity)@.len() == grad@.len(),
    ensures
        final(params)@ == sgd_params(
            old(params)@,
            grad@,
            old(velocity)@,
            lr,
            momentum,
            weight_decay,
        ),
        final(velocity)@ == sgd_velocity(
            old(params)@,
            grad@,
            old(velocity)@,
            momentum,
            weight_decay,
        ),
{
    let n: usize = params.len();
    let ghost p0 = params@;
    let ghost v0 = velocity@;
    let no_decay = weight_decay.eq_zero();
    let mut i: usize = 0;
    while i < n
        invariant
            i <= n == p0.len(),
            v0.len() == n,
            params@.len() == n,
            velocity@.len() == n,
            grad@.len() == n,
            no_decay == S::eq_zero_spec(weight_decay),
            forall|k: int|
                0 <= k < i ==> params@[k] == sgd_params(
                    p0,
                    grad@,
                    v0,
                    lr,
                    momentum,
                    weight_decay,
                )[k],
            forall|k: int|
                0 <= k < i ==> velocity@[k] == sgd_velocity(
                    p0,
                    grad@,
                    v0,
                    momentum,
                    weight_decay,
                )[k],
            forall|k: int| i <= k < n ==> params@[k] == p0[k],
            forall|k: int| i <= k < n ==> velocity@[k] == v0[k],
        decreases n - i,
    {
        let g = if no_decay {
            grad[i]
        } else {
            grad[i].add(weight_decay.mul(params[i]))
        };
        let v = momentum.mul(velocity[i]).add(g);
        velocity[i] = v;
        let p = params[i].sub(lr.mul(v));
        params[i] = p;
        i = i + 1;
    }
    assert(params@ =~= sgd_params(p0, grad@, v0, lr, momentum, weight_decay));
    assert(velocity@ =~= sgd_velocity(p0, grad@, v0, momentum, weight_decay));
}

/// The settings of an AdamW step.
#[derive(Debug, Clone, Copy)]
pub struct AdamSettings<S> {
    pub lr: S,
    pub beta1: S,
    pub beta2: S,
    pub epsilon: S,
    pub weight_decay: S,
}

/// `beta * old + (1 - beta) * g`
pub open spec fn first_moment<S: Scalar>(m: S, g: S, beta: S) -> S {
    S::add_spec(S::mul_spec(beta, m), S::mul_spec(S::sub_spec(one(), beta), g))
}

/// `beta * old + (1 - beta) * g * g`
pub open spec fn second_moment<S: Scalar>(v: S, g: S, beta: S) -> S {
    S::add_spec(
        S::mul_spec(beta, v),
        S::mul_spec(S::mul_spec(S::sub_spec(one(), beta), g), g),
    )
}

/// `1 - beta^t`
pub open spec fn bias_correction<S: Scalar>(beta: S, t: u32) -> S {
    S::sub_spec(one(), S::powi_spec(beta, t as i32))
}

/// The parameter after a step: decayed by `lr * weight_decay`, then moved by
/// `lr * m_hat / (sqrt(v_hat) + epsilon)`
pub open spec fn adam_param<S: Scalar>(p: S, m: S, v: S, t: u32, s: AdamSettings<S>) -> S {
    let m_hat = S::div_spec(m, bias_correction(s.beta1, t));
    let v_hat = S::div_spec(v, bias_correction(s.beta2, t));
    let q = S::sub_spec(p, S::mul_spec(S::mul_spec(s.lr, s.weight_decay), p));
    S::sub_spec(
        q,
        S::div_spec(S::mul_spec(s.lr, m_hat), S::add_spec(S::sqrt_spec(v_hat), s.epsilon)),
    )
}

pub open spec fn adam_m<S: Scalar>(g: Seq<S>, m: Seq<S>, s: AdamSettings<S>) -> Seq<S> {
    Seq::new(m.len(), |i: int| first_moment(m[i], g[i], s.beta1))
}

pub open spec fn adam_v<S: Scalar>(g: Seq<S>, v: Seq<S>, s: AdamSettings<S>) -> Seq<S> {
    Seq::new(v.len(), |i: int| second_moment(v[i], g[i], s.beta2))
}

pub open spec fn adam_params<S: Scalar>(
    p: Seq<S>,
    g: Seq<S>,
    m: Seq<S>,
    v: Seq<S>,
    t: u32,
    s: AdamSettings<S>,
) -> Seq<S> {
    Seq::new(
        p.len(),
        |i: int| adam_param(p[i], adam_m(g, m, s)[i], adam_v(g, v, s)[i], t, s),
    )
}

/// One AdamW step: moments, then parameters.
pub(crate) fn adamw_update<S: Scalar>(
    params: &mut Vec<S>,
    grad: &[S],
    m: &mut Vec<S>,
    v: &mut Vec<S>,
    t: u32,
    s: AdamSettings<S>,
)
    requires
        old(params)@.len() == grad@.len(),
        old(m)@.len() == grad@.len(),
        old(v)@.len() == grad@.len(),
        t <= i32::MAX,
    ensures
        final(params)@ == adam_params(old(params)@, grad@, old(m)@, old(v)@, t, s),
        final(m)@ == adam_m(grad@, old(m)@, s),
        final(v)@ == adam_v(grad@, old(v)@, s),
{
    let n: usize = params.len();
    let ghost p0 = params@;
    let ghost m0 = m@;
    let ghost v0 = v@;
    let one_s = S::constant(Constant::One);
    let steps: i32 = #[verifier::truncate] (t as i32);
    let bc1 = one_s.sub(s.beta1.powi(steps));
    let bc2 = one_s.sub(s.beta2.powi(steps));
    let mut i: usize = 0;
    while i < n
        invariant
            i <= n == p0.len(),
            m0.len() == n,
            v0.len() == n,
            params@.len() == n,
            m@.len() == n,
            v@.len() == n,
            grad@.len() == n,
            one_s == one::<S>(),
            bc1 == bias_correction(s.beta1, t),
            bc2 == bias_correction(s.beta2, t),
            forall|k: int|
                0 <= k < i ==> params@[k] == adam_params(p0, grad@, m0, v0, t, s)[k],
            forall|k: int| 0 <= k < i ==> m@[k] == adam_m(grad@, m0, s)[k],
            forall|k: int| 0 <= k < i ==> v@[k] == adam_v(grad@, v0, s)[k],
            forall|k: int| i <= k < n ==> params@[k] == p0[k],
            forall|k: int| i <= k < n ==> m@[k] == m0[k],
            forall|k: int| i <= k < n ==> v@[k] == v0[k],
        decreases n - i,
    {
        let g = grad[i];
        let mi = s.beta1.mul(m[i]).add(one_s.sub(s.beta1).mul(g));
        m[i] = mi;
        let vi = s.beta2.mul(v[i]).add(one_s.sub(s.beta2).mul(g).mul(g));
        v[i] = vi;
        let m_hat = mi.div(bc1);
        let v_hat = vi.div(bc2);
        let q = params[i].sub(s.lr.mul(s.weight_decay).mul(params[i]));
        let p = q.sub(s.lr.mul(m_hat).div(v_hat.sqrt().add(s.epsilon)));
        params[i] = p;
        i = i + 1;
    }
    assert(params@ =~= adam_params(p0, grad@, m0, v0, t, s));
    assert(m@ =~= adam_m(grad@, m0, s));
    assert(v@ =~= adam_v(grad@, v0, s));
}

impl Tensor {
    /// Two contiguous CPU tensors of 32-bit floats with the same shape.
    pub open spec fn pairs_with<S>(self, other: Tensor, mem: Memory<S>) -> bool {
        &&& self.is_f32(mem)
        &&& other.is_f32(mem)
        &&& self.contiguous_spec()
        &&& other.contiguous_spec()
        &&& self.shape@ == other.shape@
    }

    /// Replaces all elements of a CPU tensor of 32-bit floats.
    pub fn write<S: Scalar>(&self, data: Vec<S>, rt: &mut Runtime<S>)
        requires
            old(rt).wf(),
            self.is_f32(old(rt).mem),
            data@.len() == numel(self.shape@),
        ensures
            final(rt).wf(),
            final(rt).holds() == old(rt).holds(),
            replaced(*old(rt), *final(rt), *self, data@),
            only_changes(*old(rt), *final(rt), *self),
            self.is_f32(final(rt).mem),
            self.contiguous_spec() ==> self.value(final(rt).mem) == (Value {
                dims: self.shape@,
                data: data@,
            }),
            forall|u: Tensor| #[trigger] u.valid(old(rt).mem) ==> u.valid(final(rt).mem),
    {
        let ghost before = *rt;
        let ghost d = data@;
        rt.mem.arena.replace(self.storage_id, CpuStorage::F32(data));
        proof {
            lemma_replaced(before, *rt, *self, d);
        }
    }

    /// Modifies a value at a flat index of a contiguous F32 tensor.
    pub fn set_f32<S: Scalar>(&self, index: usize, value: S, rt: &mut Runtime<S>)
        requires
            old(rt).wf(),
            self.is_f32(old(rt).mem),
            self.contiguous_spec(),
            index < numel(self.shape@),
        ensures
            final(rt).wf(),
            replaced(
                *old(rt),
                *final(rt),
                *self,
                self.value(old(rt).mem).data.update(index as int, value),
            ),
            only_changes(*old(rt), *final(rt), *self),
            self.value(final(rt).mem).data == self.value(old(rt).mem).data.update(
                index as int,
                value,
            ),
    {
        proof {
            lemma_contiguous_value(*self, rt.mem);
        }
        let mut data = self.to_vec_f32(rt);
        data[index] = value;
        self.write(data, rt);
    }

    /// In-place scaled addition: `self += scale * other`.
    pub fn add_assign_scaled<S: Scalar>(&self, other: &Tensor, scale: S, rt: &mut Runtime<S>)
        requires
            old(rt).wf(),
            self.pairs_with(*other, old(rt).mem),
        ensures
            final(rt).wf(),
            replaced(
                *old(rt),
                *final(rt),
                *self,
                scaled_sum(
                    self.value(old(rt).mem).data,
                    other.value(old(rt).mem).data,
                    scale,
                ),
            ),
            only_changes(*old(rt), *final(rt), *self),
            self.value(final(rt).mem).data == scaled_sum(
                self.value(old(rt).mem).data,
                other.value(old(rt).mem).data,
                scale,
            ),
    {
        proof {
            lemma_contiguous_value(*self, rt.mem);
            lemma_contiguous_value(*other, rt.mem);
        }
        let mut data = self.to_vec_f32(rt);
        let src = other.to_vec_f32(rt);
        add_scaled(&mut data, &src, scale);
        self.write(data, rt);
    }

    /// Performs an in-place SGD step with momentum and weight decay on this tensor.
    pub fn sgd_step<S: Scalar>(
        &self,
        grad: &Tensor,
        velocity: &mut Vec<S>,
        lr: S,
        momentum: S,
        weight_decay: S,
        rt: &mut Runtime<S>,
    )
        requires
            old(rt).wf(),
            self.pairs_with(*grad, old(rt).mem),
            old(velocity)@.len() == numel(self.shape@),
        ensures
            final(rt).wf(),
            only_changes(*old(rt), *final(rt), *self),
            ({
                let p = self.value(old(rt).mem).data;
                let g = grad.value(old(rt).mem).data;
                let v = old(velocity)@;
                &&& replaced(
                    *old(rt),
                    *final(rt),
                    *self,
                    sgd_params(p, g, v, lr, momentum, weight_decay),
                )
                &&& self.value(final(rt).mem).data == sgd_params(
                    p,
                    g,
                    v,
                    lr,
                    momentum,
                    weight_decay,
                )
                &&& final(velocity)@ == sgd_velocity(p, g, v, momentum, weight_decay)
            }),
    {
        proof {
            lemma_contiguous_value(*self, rt.mem);
            lemma_contiguous_value(*grad, rt.mem);
        }
        let mut data = self.to_vec_f32(rt);
        let g = grad.to_vec_f32(rt);
        sgd_update(&mut data, &g, velocity, lr, momentum, weight_decay);
        self.write(data, rt);
    }

    /// Performs an in-place AdamW step on this tensor.
    pub fn adamw_step<S: Scalar>(
        &self,
        grad: &Tensor,
        m: &mut Vec<S>,
        v: &mut Vec<S>,
        t: u32,
        settings: AdamSettings<S>,
        rt: &mut Runtime<S>,
    )
        requires
            old(rt).wf(),
            self.pairs_with(*grad, old(rt).mem),
            old(m)@.len() == numel(self.shape@),
            old(v)@.len() == numel(self.shape@),
            t <= i32::MAX,
        ensures
            final(rt).wf(),
            only_changes(*old(rt), *final(rt), *self),
            ({
                let p = self.value(old(rt).mem).data;
                let g = grad.value(old(rt).mem).data;
                let next = adam_params(p, g, old(m)@, old(v)@, t, settings);
                &&& replaced(*old(rt), *final(rt), *self, next)
                &&& self.value(final(rt).mem).data == next
                &&& final(m)@ == adam_m(g, old(m)@, settings)
                &&& final(v)@ == adam_v(g, old(v)@, settings)
            }),
    {
        proof {
            lemma_contiguous_value(*self, rt.mem);
            lemma_contiguous_value(*grad, rt.mem);
        }
        let mut data = self.to_vec_f32(rt);
        let g = grad.to_vec_f32(rt);
        adamw_update(&mut data, &g, m, v, t, settings);
        self.write(data, rt);
    }
}

} // verus!

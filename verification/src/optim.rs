//! Optimizers.
use vstd::prelude::*;
use crate::autograd::grads::lemma_in_holds;
use crate::dense::filled;
use crate::index::{lemma_sized_fits, numel};
use crate::mutate::{
    adam_m, adam_params, adam_v, adamw_update, lemma_replaced, replaced, sgd_params, sgd_update,
    sgd_velocity, AdamSettings,
};
use crate::runtime::{GradKey, Runtime};
use crate::scalar::{one, zero, Constant, Scalar};
use crate::tensor::Tensor;

verus! {

/// The key of a parameter's gradient.
pub open spec fn key_of(p: Tensor) -> GradKey {
    (p.storage_id, p.device)
}

/// A parameter has a gradient.
pub open spec fn has_grad<S>(rt: Runtime<S>, p: Tensor) -> bool {
    rt.hooks.grad && rt.gradients@.contains_key(key_of(p))
}

/// The elements of a parameter's gradient.
pub open spec fn grad_data<S>(rt: Runtime<S>, p: Tensor) -> Seq<S> {
    rt.gradients@[key_of(p)].value(rt.mem).data
}

/// A parameter that an optimizer can move: on the CPU, row-major, and with a gradient of the same
/// shape if it has one.
pub open spec fn movable<S>(rt: Runtime<S>, p: Tensor) -> bool {
    &&& p.is_f32(rt.mem)
    &&& p.contiguous_spec()
    &&& has_grad(rt, p) ==> {
        &&& rt.gradients@[key_of(p)].is_f32(rt.mem)
        &&& rt.gradients@[key_of(p)].shape@ == p.shape@
    }
}

/// All parameters can be moved.
pub open spec fn all_movable<S>(rt: Runtime<S>, ps: Seq<Tensor>) -> bool {
    forall|i: int| 0 <= i < ps.len() ==> movable(rt, #[trigger] ps[i])
}

/// Reads a parameter's gradient, where it has one.
fn read_grad<S: Scalar>(p: &Tensor, rt: &Runtime<S>) -> (r: Option<Vec<S>>)
    requires
        rt.wf(),
        movable(*rt, *p),
    ensures
        r is Some == has_grad(*rt, *p),
        r matches Some(g) ==> g@ == grad_data(*rt, *p) && g@.len() == numel(p.shape@),
{
    if !rt.hooks.grad {
        return None;
    }
    match rt.gradients.get((p.storage_id, p.device)) {
        Some(g) => {
            proof {
                lemma_in_holds(*rt, *g);
            }
            let d = g.read(rt);
            Some(d.into_data())
        },
        None => None,
    }
}

/// Moving one parameter leaves the others movable.
proof fn lemma_still_movable<S>(
    a: Runtime<S>,
    b: Runtime<S>,
    t: Tensor,
    data: Seq<S>,
    ps: Seq<Tensor>,
)
    requires
        a.wf(),
        b.wf(),
        t.is_f32(a.mem),
        data.len() == numel(t.shape@),
        replaced(a, b, t, data),
        all_movable(a, ps),
    ensures
        all_movable(b, ps),
{
    lemma_replaced(a, b, t, data);
    assert forall|i: int| 0 <= i < ps.len() implies movable(b, #[trigger] ps[i]) by {
        assert(movable(a, ps[i]));
        assert(ps[i].valid(b.mem));
        if has_grad(b, ps[i]) {
            assert(a.gradients@[key_of(ps[i])].valid(b.mem));
        }
    }
}

/// A row of zeros for each parameter.
fn zero_rows<S: Scalar>(params: &Vec<Tensor>) -> (r: Vec<Vec<S>>)
    requires
        forall|i: int| 0 <= i < params@.len() ==> (#[trigger] params@[i]).laid_out(),
    ensures
        rows_are_zero(params@, r@),
{
    let mut out: Vec<Vec<S>> = Vec::new();
    let mut i: usize = 0;
    while i < params.len()
        invariant
            i <= params@.len(),
            forall|k: int| 0 <= k < params@.len() ==> (#[trigger] params@[k]).laid_out(),
            out@.len() == i,
            forall|k: int|
                0 <= k < i ==> (#[trigger] out@[k])@ == zeros::<S>(numel(params@[k].shape@)),
        decreases params@.len() - i,
    {
        assert(params@[i as int].laid_out());
        proof {
            lemma_sized_fits(params@[i as int].shape@);
        }
        let row = filled(params[i].shape().numel(), S::constant(Constant::Zero));
        assert(row@ =~= zeros::<S>(numel(params@[i as int].shape@)));
        out.push(row);
        i = i + 1;
    }
    out
}

/// `n` zeros.
pub open spec fn zeros<S: Scalar>(n: nat) -> Seq<S> {
    Seq::new(n, |i: int| zero::<S>())
}

/// One row of zeros for each parameter.
pub open spec fn rows_are_zero<S: Scalar>(params: Seq<Tensor>, rows: Seq<Vec<S>>) -> bool {
    &&& rows.len() == params.len()
    &&& forall|i: int|
        0 <= i < rows.len() ==> (#[trigger] rows[i])@ == zeros::<S>(numel(params[i].shape@))
}

/// One row as long as its parameter for each.
pub open spec fn rows_match<S>(params: Seq<Tensor>, rows: Seq<Vec<S>>) -> bool {
    &&& rows.len() == params.len()
    &&& forall|i: int| 0 <= i < rows.len() ==> (#[trigger] rows[i])@.len() == numel(params[i].shape@)
}

/// What rows hold.
pub open spec fn row_views<S>(rows: Seq<Vec<S>>) -> Seq<Seq<S>> {
    Seq::new(rows.len(), |i: int| rows[i]@)
}

/// Stochastic Gradient Descent (SGD) optimizer.
#[derive(Debug)]
pub struct SGD<S> {
    pub params: Vec<Tensor>,
    pub lr: S,
    pub momentum: S,
    pub weight_decay: S,
    pub velocities: Vec<Vec<S>>,
}

/// One parameter's step of SGD: nothing where it has no gradient.
pub open spec fn sgd_stepped<S: Scalar>(
    a: Runtime<S>,
    b: Runtime<S>,
    p: Tensor,
    before: Seq<S>,
    after: Seq<S>,
    opt: SGD<S>,
) -> bool {
    if has_grad(a, p) {
        let x = p.value(a.mem).data;
        let g = grad_data(a, p);
        &&& replaced(
            a,
            b,
            p,
            sgd_params(x, g, before, opt.lr, opt.momentum, opt.weight_decay),
        )
        &&& after == sgd_velocity(x, g, before, opt.momentum, opt.weight_decay)
    } else {
        b == a && after == before
    }
}

/// The step of parameter `i` between two states.
pub open spec fn sgd_step_at<S: Scalar>(
    states: Seq<Runtime<S>>,
    opt: SGD<S>,
    before: Seq<Seq<S>>,
    after: Seq<Seq<S>>,
    i: int,
) -> bool {
    sgd_stepped(states[i], states[i + 1], opt.params@[i], before[i], after[i], opt)
}

/// The states between the steps of the parameters.
pub open spec fn sgd_steps<S: Scalar>(
    states: Seq<Runtime<S>>,
    opt: SGD<S>,
    before: Seq<Seq<S>>,
    after: Seq<Seq<S>>,
    n: nat,
) -> bool {
    &&& states.len() == n + 1
    &&& forall|i: int| 0 <= i < n ==> #[trigger] sgd_step_at(states, opt, before, after, i)
}

impl<S: Scalar> SGD<S> {
    /// One velocity for each parameter.
    pub open spec fn wf(self) -> bool {
        rows_match(self.params@, self.velocities@)
    }

    /// Creates a new SGD optimizer.
    #[must_use]
    pub fn new(params: Vec<Tensor>, lr: S, momentum: S, weight_decay: S) -> (r: Self)
        requires
            forall|i: int| 0 <= i < params@.len() ==> (#[trigger] params@[i]).laid_out(),
        ensures
            r.wf(),
            r.params == params,
            r.lr == lr,
            r.momentum == momentum,
            r.weight_decay == weight_decay,
            rows_are_zero(params@, r.velocities@),
    {
        let velocities = zero_rows(&params);
        SGD { params, lr, momentum, weight_decay, velocities }
    }

    /// Performs a single optimization step: each parameter with a gradient moves, one after the
    /// other.
    pub fn step(&mut self, rt: &mut Runtime<S>)
        requires
            old(self).wf(),
            old(rt).wf(),
            all_movable(*old(rt), old(self).params@),
        ensures
            final(self).wf(),
            final(rt).wf(),
            all_movable(*final(rt), old(self).params@),
            *final(self) == (SGD { velocities: final(self).velocities, ..*old(self) }),
            exists|states: Seq<Runtime<S>>| #[trigger]
                sgd_steps(
                    states,
                    *old(self),
                    row_views(old(self).velocities@),
                    row_views(final(self).velocities@),
                    old(self).params@.len(),
                ) && states[0] == *old(rt) && states.last() == *final(rt),
    {
        let ghost opt = *self;
        let ghost before = row_views(self.velocities@);
        let ghost n = self.params@.len();
        let ghost mut states: Seq<Runtime<S>> = seq![*rt];
        let mut i: usize = 0;
        while i < self.params.len()
            invariant
                i <= n,
                n == opt.params@.len(),
                *self == (SGD { velocities: self.velocities, ..opt }),
                self.wf(),
                rt.wf(),
                all_movable(*rt, opt.params@),
                before.len() == n,
                forall|k: int| i <= k < n ==> (#[trigger] self.velocities@[k])@ == before[k],
                sgd_steps(states, opt, before, row_views(self.velocities@), i as nat),
                states[0] == *old(rt),
                states.last() == *rt,
            decreases n - i,
        {
            let ghost a = *rt;
            let ghost p = opt.params@[i as int];
            let ghost rows = self.velocities@;
            assert(movable(a, p));
            let grad = read_grad(&self.params[i], rt);
            match grad {
                Some(g) => {
                    proof {
                        crate::create::lemma_contiguous_value(p, a.mem);
                    }
                    let mut data = self.params[i].to_vec_f32(rt);
                    let mut velocity: Vec<S> = Vec::new();
                    assert(self.velocities@[i as int]@ == before[i as int]);
                    std::mem::swap(&mut velocity, &mut self.velocities[i]);
                    sgd_update(
                        &mut data,
                        &g,
                        &mut velocity,
                        self.lr,
                        self.momentum,
                        self.weight_decay,
                    );
                    let ghost new_data = data@;
                    self.velocities[i] = velocity;
                    self.params[i].write(data, rt);
                    proof {
                        lemma_still_movable(a, *rt, p, new_data, opt.params@);
                    }
                },
                None => {},
            }
            proof {
                let rows_now = self.velocities@;
                let prev = states;
                states = states.push(*rt);
                assert forall|k: int| 0 <= k < i + 1 implies #[trigger] sgd_step_at(
                    states,
                    opt,
                    before,
                    row_views(rows_now),
                    k,
                ) by {
                    if k < i {
                        assert(sgd_step_at(prev, opt, before, row_views(rows), k));
                        assert(prev[k] == states[k] && prev[k + 1] == states[k + 1]);
                        assert(rows_now[k] == rows[k]);
                        assert(row_views(rows)[k] == row_views(rows_now)[k]);
                    } else {
                        assert(states[k] == a && states[k + 1] == *rt);
                        assert(rows[k]@ == before[k]);
                    }
                }
            }
            i = i + 1;
        }
        assert(sgd_steps(states, opt, before, row_views(self.velocities@), n));
    }

    /// The current learning rate.
    #[must_use]
    pub fn lr(&self) -> (r: S)
        ensures
            r == self.lr,
    {
        self.lr
    }

    /// Sets the learning rate (e.g. driven by a schedule between steps).
    pub fn set_lr(&mut self, lr: S)
        ensures
            *final(self) == (SGD { lr, ..*old(self) }),
    {
        self.lr = lr;
    }
}

/// AdamW optimizer (Adam with decoupled weight decay).
#[derive(Debug)]
pub struct AdamW<S> {
    pub params: Vec<Tensor>,
    pub settings: AdamSettings<S>,
    pub m: Vec<Vec<S>>,
    pub v: Vec<Vec<S>>,
    pub t: u32,
}

/// One parameter's step of AdamW: nothing where it has no gradient.
pub open spec fn adam_stepped<S: Scalar>(
    a: Runtime<S>,
    b: Runtime<S>,
    p: Tensor,
    m: (Seq<S>, Seq<S>),
    v: (Seq<S>, Seq<S>),
    t: u32,
    s: AdamSettings<S>,
) -> bool {
    if has_grad(a, p) {
        let g = grad_data(a, p);
        &&& replaced(a, b, p, adam_params(p.value(a.mem).data, g, m.0, v.0, t, s))
        &&& m.1 == adam_m(g, m.0, s)
        &&& v.1 == adam_v(g, v.0, s)
    } else {
        b == a && m.1 == m.0 && v.1 == v.0
    }
}

/// The step of parameter `i` between two states.
pub open spec fn adam_step_at<S: Scalar>(
    states: Seq<Runtime<S>>,
    params: Seq<Tensor>,
    m: (Seq<Seq<S>>, Seq<Seq<S>>),
    v: (Seq<Seq<S>>, Seq<Seq<S>>),
    t: u32,
    s: AdamSettings<S>,
    i: int,
) -> bool {
    adam_stepped(
        states[i],
        states[i + 1],
        params[i],
        (m.0[i], m.1[i]),
        (v.0[i], v.1[i]),
        t,
        s,
    )
}

/// The states between the steps of the parameters.
pub open spec fn adam_steps<S: Scalar>(
    states: Seq<Runtime<S>>,
    params: Seq<Tensor>,
    m: (Seq<Seq<S>>, Seq<Seq<S>>),
    v: (Seq<Seq<S>>, Seq<Seq<S>>),
    t: u32,
    s: AdamSettings<S>,
    n: nat,
) -> bool {
    &&& states.len() == n + 1
    &&& forall|i: int| 0 <= i < n ==> #[trigger] adam_step_at(states, params, m, v, t, s, i)
}

impl<S: Scalar> AdamW<S> {
    /// Two moments for each parameter.
    pub open spec fn wf(self) -> bool {
        &&& rows_match(self.params@, self.m@)
        &&& rows_match(self.params@, self.v@)
    }

    /// Creates a new AdamW optimizer.
    #[must_use]
    pub fn new(
        params: Vec<Tensor>,
        lr: S,
        beta1: S,
        beta2: S,
        eps: S,
        weight_decay: S,
    ) -> (r: Self)
        requires
            forall|i: int| 0 <= i < params@.len() ==> (#[trigger] params@[i]).laid_out(),
        ensures
            r.wf(),
            r.params == params,
            r.settings == (AdamSettings { lr, beta1, beta2, epsilon: eps, weight_decay }),
            rows_are_zero(params@, r.m@),
            rows_are_zero(params@, r.v@),
            r.t == 0,
    {
        let m = zero_rows(&params);
        let v = zero_rows(&params);
        let settings = AdamSettings { lr, beta1, beta2, epsilon: eps, weight_decay };
        AdamW { params, settings, m, v, t: 0 }
    }

    /// Performs a single optimization step: each parameter with a gradient moves, one after the
    /// other.
    pub fn step(&mut self, rt: &mut Runtime<S>)
        requires
            old(self).wf(),
            old(self).t < i32::MAX,
            old(rt).wf(),
            all_movable(*old(rt), old(self).params@),
        ensures
            final(self).wf(),
            final(rt).wf(),
            all_movable(*final(rt), old(self).params@),
            final(self).t == old(self).t + 1,
            *final(self) == (AdamW {
                m: final(self).m,
                v: final(self).v,
                t: final(self).t,
                ..*old(self)
            }),
            exists|states: Seq<Runtime<S>>| #[trigger]
                adam_steps(
                    states,
                    old(self).params@,
                    (row_views(old(self).m@), row_views(final(self).m@)),
                    (row_views(old(self).v@), row_views(final(self).v@)),
                    final(self).t,
                    old(self).settings,
                    old(self).params@.len(),
                ) && states[0] == *old(rt) && states.last() == *final(rt),
    {
        let ghost opt = *self;
        let ghost m0 = row_views(self.m@);
        let ghost v0 = row_views(self.v@);
        let ghost n = self.params@.len();
        let ghost mut states: Seq<Runtime<S>> = seq![*rt];
        self.t = self.t + 1;
        let t: u32 = self.t;
        let mut i: usize = 0;
        while i < self.params.len()
            invariant
                i <= n,
                n == opt.params@.len(),
                t == opt.t + 1,
                t <= i32::MAX,
                *self == (AdamW { m: self.m, v: self.v, t, ..opt }),
                self.wf(),
                rt.wf(),
                all_movable(*rt, opt.params@),
                m0.len() == n,
                v0.len() == n,
                forall|k: int| i <= k < n ==> (#[trigger] self.m@[k])@ == m0[k],
                forall|k: int| i <= k < n ==> (#[trigger] self.v@[k])@ == v0[k],
                adam_steps(
                    states,
                    opt.params@,
                    (m0, row_views(self.m@)),
                    (v0, row_views(self.v@)),
                    t,
                    opt.settings,
                    i as nat,
                ),
                states[0] == *old(rt),
                states.last() == *rt,
            decreases n - i,
        {
            let ghost a = *rt;
            let ghost p = opt.params@[i as int];
            let ghost (ms, vs) = (self.m@, self.v@);
            assert(movable(a, p));
            let grad = read_grad(&self.params[i], rt);
            match grad {
                Some(g) => {
                    proof {
                        crate::create::lemma_contiguous_value(p, a.mem);
                    }
                    let mut data = self.params[i].to_vec_f32(rt);
                    let mut m: Vec<S> = Vec::new();
                    let mut v: Vec<S> = Vec::new();
                    assert(self.m@[i as int]@ == m0[i as int]);
                    assert(self.v@[i as int]@ == v0[i as int]);
                    std::mem::swap(&mut m, &mut self.m[i]);
                    std::mem::swap(&mut v, &mut self.v[i]);
                    adamw_update(&mut data, &g, &mut m, &mut v, t, self.settings);
                    let ghost new_data = data@;
                    self.m[i] = m;
                    self.v[i] = v;
                    self.params[i].write(data, rt);
                    proof {
                        lemma_still_movable(a, *rt, p, new_data, opt.params@);
                    }
                },
                None => {},
            }
            proof {
                let (ms_now, vs_now) = (self.m@, self.v@);
                let prev = states;
                states = states.push(*rt);
                assert forall|k: int| 0 <= k < i + 1 implies #[trigger] adam_step_at(
                    states,
                    opt.params@,
                    (m0, row_views(ms_now)),
                    (v0, row_views(vs_now)),
                    t,
                    opt.settings,
                    k,
                ) by {
                    if k < i {
                        assert(adam_step_at(
                            prev,
                            opt.params@,
                            (m0, row_views(ms)),
                            (v0, row_views(vs)),
                            t,
                            opt.settings,
                            k,
                        ));
                        assert(prev[k] == states[k] && prev[k + 1] == states[k + 1]);
                        assert(ms_now[k] == ms[k] && vs_now[k] == vs[k]);
                        assert(row_views(ms)[k] == row_views(ms_now)[k]);
                        assert(row_views(vs)[k] == row_views(vs_now)[k]);
                    } else {
                        assert(states[k] == a && states[k + 1] == *rt);
                        assert(ms[k]@ == m0[k] && vs[k]@ == v0[k]);
                    }
                }
            }
            i = i + 1;
        }
        assert(adam_steps(
            states,
            opt.params@,
            (m0, row_views(self.m@)),
            (v0, row_views(self.v@)),
            t,
            opt.settings,
            n,
        ));
    }

    /// The current learning rate.
    #[must_use]
    pub fn lr(&self) -> (r: S)
        ensures
            r == self.settings.lr,
    {
        self.settings.lr
    }

    /// Sets the learning rate (e.g. driven by a schedule between steps).
    pub fn set_lr(&mut self, lr: S)
        ensures
            *final(self) == (AdamW {
                settings: AdamSettings { lr, ..old(self).settings },
                ..*old(self)
            }),
    {
        self.settings.lr = lr;
    }
}

/// Learning-rate schedule: linear warmup, then cosine decay to `min_lr`.
///
///   - `step < warmup_steps`: `lr = base_lr * (step + 1) / (warmup_steps + 1)`
///   - `step > total_steps`:  `lr = min_lr`
///   - otherwise: cosine decay from `base_lr` down to `min_lr`
#[derive(Debug, Clone, Copy)]
pub struct CosineSchedule<S> {
    pub base_lr: S,
    pub min_lr: S,
    pub warmup_steps: u32,
    pub total_steps: u32,
}

/// A step number as a number.
pub open spec fn steps<S: Scalar>(n: int) -> S {
    S::count_spec(n as usize)
}

/// How many steps the decay takes, and at least one.
pub open spec fn decay_steps(warmup: u32, total: u32) -> int {
    if total > warmup {
        total - warmup
    } else {
        1
    }
}

impl<S: Scalar> CosineSchedule<S> {
    /// Creates a warmup + cosine-decay schedule.
    #[must_use]
    pub fn new(base_lr: S, min_lr: S, warmup_steps: u32, total_steps: u32) -> (r: Self)
        ensures
            r == (CosineSchedule { base_lr, min_lr, warmup_steps, total_steps }),
    {
        CosineSchedule { base_lr, min_lr, warmup_steps, total_steps }
    }

    /// The learning rate while warming up.
    pub open spec fn warmup_lr(self, step: u32) -> S {
        S::div_spec(
            S::mul_spec(self.base_lr, S::add_spec(steps(step as int), one())),
            S::add_spec(steps(self.warmup_steps as int), one()),
        )
    }

    /// The learning rate while decaying.
    pub open spec fn decay_lr(self, step: u32) -> S {
        let progress = S::div_spec(
            steps(step - self.warmup_steps),
            steps(decay_steps(self.warmup_steps, self.total_steps)),
        );
        let coeff = S::mul_spec(
            S::constant_spec(Constant::Half),
            S::add_spec(
                one(),
                S::cos_spec(S::mul_spec(S::constant_spec(Constant::Pi), progress)),
            ),
        );
        S::add_spec(
            self.min_lr,
            S::mul_spec(coeff, S::sub_spec(self.base_lr, self.min_lr)),
        )
    }

    /// The learning rate of a step: warming up, then decaying, then the smallest.
    pub open spec fn rate(self, step: u32) -> S {
        if step < self.warmup_steps {
            self.warmup_lr(step)
        } else if step > self.total_steps {
            self.min_lr
        } else {
            self.decay_lr(step)
        }
    }

    /// Learning rate at a given (0-indexed) step.
    #[must_use]
    pub fn lr_at(&self, step: u32) -> (r: S)
        ensures
            r == self.rate(step),
            step < self.warmup_steps ==> r == self.warmup_lr(step),
            step >= self.warmup_steps && step > self.total_steps ==> r == self.min_lr,
            self.warmup_steps <= step <= self.total_steps ==> r == self.decay_lr(step),
    {
        let one_s = S::constant(Constant::One);
        if step < self.warmup_steps {
            return self.base_lr.mul(S::count(step as usize).add(one_s)).div(
                S::count(self.warmup_steps as usize).add(one_s),
            );
        }
        if step > self.total_steps {
            return self.min_lr;
        }
        let denom: u32 = if self.total_steps > self.warmup_steps {
            self.total_steps - self.warmup_steps
        } else {
            1
        };
        let progress = S::count((step - self.warmup_steps) as usize).div(S::count(denom as usize));
        let coeff = S::constant(Constant::Half).mul(
            one_s.add(S::constant(Constant::Pi).mul(progress).cos()),
        );
        self.min_lr.add(coeff.mul(self.base_lr.sub(self.min_lr)))
    }
}

/// The sum of squares of a list, on top of a sum.
pub open spec fn square_sum<S: Scalar>(data: Seq<S>, n: nat, init: S) -> S
    decreases n,
{
    if n == 0 {
        init
    } else {
        let v = data[n - 1];
        S::mul_add_spec(v, v, square_sum(data, (n - 1) as nat, init))
    }
}

/// The sum of squares of the gradients of the first `n` parameters.
pub open spec fn total_square<S: Scalar>(rt: Runtime<S>, params: Seq<Tensor>, n: nat) -> S
    decreases n,
{
    if n == 0 {
        zero()
    } else {
        let before = total_square(rt, params, (n - 1) as nat);
        let p = params[n - 1];
        if has_grad(rt, p) {
            let g = grad_data(rt, p);
            square_sum(g, g.len(), before)
        } else {
            before
        }
    }
}

/// The global norm of the parameters' gradients.
pub open spec fn grad_norm<S: Scalar>(rt: Runtime<S>, params: Seq<Tensor>) -> S {
    S::sqrt_spec(total_square(rt, params, params.len()))
}

/// The factor that brings a norm down to a limit.
pub open spec fn clip_scale<S: Scalar>(norm: S, max_norm: S) -> S {
    S::div_spec(max_norm, S::add_spec(norm, S::constant_spec(Constant::ClipFloor)))
}

/// Every element times a factor.
pub open spec fn rescaled<S: Scalar>(g: Seq<S>, scale: S) -> Seq<S> {
    Seq::new(g.len(), |i: int| S::mul_spec(g[i], scale))
}

/// One gradient's step of clipping: nothing where there is none.
pub open spec fn clip_stepped<S: Scalar>(
    a: Runtime<S>,
    b: Runtime<S>,
    p: Tensor,
    scale: S,
) -> bool {
    if has_grad(a, p) {
        replaced(a, b, a.gradients@[key_of(p)], rescaled(grad_data(a, p), scale))
    } else {
        b == a
    }
}

/// The step of gradient `i` between two states.
pub open spec fn clip_step_at<S: Scalar>(
    states: Seq<Runtime<S>>,
    params: Seq<Tensor>,
    scale: S,
    i: int,
) -> bool {
    clip_stepped(states[i], states[i + 1], params[i], scale)
}

/// The states between the steps of the gradients.
pub open spec fn clip_steps<S: Scalar>(
    states: Seq<Runtime<S>>,
    params: Seq<Tensor>,
    scale: S,
    n: nat,
) -> bool {
    &&& states.len() == n + 1
    &&& forall|i: int| 0 <= i < n ==> #[trigger] clip_step_at(states, params, scale, i)
}

/// A parameter whose gradient, where it has one, can be scaled in place.
pub open spec fn clippable<S>(rt: Runtime<S>, p: Tensor) -> bool {
    has_grad(rt, p) ==> {
        &&& rt.gradients@[key_of(p)].is_f32(rt.mem)
        &&& rt.gradients@[key_of(p)].contiguous_spec()
    }
}

/// Every gradient can be scaled in place.
pub open spec fn all_clippable<S>(rt: Runtime<S>, ps: Seq<Tensor>) -> bool {
    forall|i: int| 0 <= i < ps.len() ==> clippable(rt, #[trigger] ps[i])
}

/// Adds the squares of a list to a sum.
fn add_squares<S: Scalar>(data: &Vec<S>, init: S) -> (r: S)
    ensures
        r == square_sum(data@, data@.len(), init),
{
    let mut sum = init;
    let mut i: usize = 0;
    while i < data.len()
        invariant
            i <= data@.len(),
            sum == square_sum(data@, i as nat, init),
        decreases data@.len() - i,
    {
        let v = data[i];
        sum = v.mul_add(v, sum);
        i = i + 1;
    }
    sum
}

/// Multiplies every element of a list.
fn rescale<S: Scalar>(data: &Vec<S>, scale: S) -> (r: Vec<S>)
    ensures
        r@ == rescaled(data@, scale),
{
    let mut out: Vec<S> = Vec::with_capacity(data.len());
    let mut i: usize = 0;
    while i < data.len()
        invariant
            i <= data@.len(),
            out@.len() == i,
            forall|k: int| 0 <= k < i ==> #[trigger] out@[k] == S::mul_spec(data@[k], scale),
        decreases data@.len() - i,
    {
        out.push(data[i].mul(scale));
        i = i + 1;
    }
    assert(out@ =~= rescaled(data@, scale));
    out
}

/// Clips the global L2 norm of `params`' gradients to `max_norm`, in place.
///
/// Returns the total gradient norm *before* clipping. Parameters without a gradient are skipped;
/// call after `backward()` and before `optimizer.step()`.
#[must_use]
pub fn clip_grad_norm<S: Scalar>(params: &[Tensor], max_norm: S, rt: &mut Runtime<S>) -> (r: S)
    requires
        old(rt).wf(),
        all_clippable(*old(rt), params@),
    ensures
        final(rt).wf(),
        r == grad_norm(*old(rt), params@),
        !S::gt_spec(r, max_norm) ==> *final(rt) == *old(rt),
        S::gt_spec(r, max_norm) ==> exists|states: Seq<Runtime<S>>| #[trigger]
            clip_steps(states, params@, clip_scale(r, max_norm), params@.len()) && states[0]
                == *old(rt) && states.last() == *final(rt),
{
    let mut total = S::constant(Constant::Zero);
    let mut i: usize = 0;
    while i < params.len()
        invariant
            i <= params@.len(),
            rt.wf(),
            *rt == *old(rt),
            all_clippable(*rt, params@),
            total == total_square(*rt, params@, i as nat),
        decreases params@.len() - i,
    {
        assert(clippable(*rt, params@[i as int]));
        let grad = held_grad(&params[i], rt);
        if let Some(g) = grad {
            total = add_squares(&g, total);
        }
        i = i + 1;
    }
    let norm = total.sqrt();
    if norm.gt(max_norm) {
        let scale = max_norm.div(norm.add(S::constant(Constant::ClipFloor)));
        let ghost mut states: Seq<Runtime<S>> = seq![*rt];
        let mut i: usize = 0;
        while i < params.len()
            invariant
                i <= params@.len(),
                rt.wf(),
                all_clippable(*rt, params@),
                clip_steps(states, params@, scale, i as nat),
                states[0] == *old(rt),
                states.last() == *rt,
            decreases params@.len() - i,
        {
            let ghost a = *rt;
            let ghost p = params@[i as int];
            assert(clippable(a, p));
            let grad = held_grad(&params[i], rt);
            if let Some(g) = grad {
                let scaled = rescale(&g, scale);
                let ghost data = scaled@;
                write_grad(&params[i], scaled, rt);
                proof {
                    lemma_still_clippable(a, *rt, a.gradients@[key_of(p)], data, params@);
                }
            }
            proof {
                let prev = states;
                states = states.push(*rt);
                assert forall|k: int| 0 <= k < i + 1 implies #[trigger] clip_step_at(
                    states,
                    params@,
                    scale,
                    k,
                ) by {
                    if k < i {
                        assert(clip_step_at(prev, params@, scale, k));
                        assert(prev[k] == states[k] && prev[k + 1] == states[k + 1]);
                    } else {
                        assert(states[k] == a && states[k + 1] == *rt);
                    }
                }
            }
            i = i + 1;
        }
        assert(scale == clip_scale(norm, max_norm));
        assert(clip_steps(states, params@, clip_scale(norm, max_norm), params@.len()));
    }
    norm
}

/// Reads a row-major gradient, where there is one.
fn held_grad<S: Scalar>(p: &Tensor, rt: &Runtime<S>) -> (r: Option<Vec<S>>)
    requires
        rt.wf(),
        clippable(*rt, *p),
    ensures
        r is Some == has_grad(*rt, *p),
        r matches Some(g) ==> g@ == grad_data(*rt, *p) && g@.len() == numel(
            rt.gradients@[key_of(*p)].shape@,
        ),
{
    if !rt.hooks.grad {
        return None;
    }
    match rt.gradients.get((p.storage_id, p.device)) {
        Some(g) => {
            proof {
                crate::create::lemma_contiguous_value(*g, rt.mem);
            }
            Some(g.to_vec_f32(rt))
        },
        None => None,
    }
}

/// Replaces the elements of a gradient.
fn write_grad<S: Scalar>(p: &Tensor, data: Vec<S>, rt: &mut Runtime<S>)
    requires
        old(rt).wf(),
        has_grad(*old(rt), *p),
        clippable(*old(rt), *p),
        data@.len() == numel(old(rt).gradients@[key_of(*p)].shape@),
    ensures
        final(rt).wf(),
        replaced(*old(rt), *final(rt), old(rt).gradients@[key_of(*p)], data@),
{
    let g = match rt.gradients.get((p.storage_id, p.device)) {
        Some(g) => crate::autograd::backward::alias(g),
        None => {
            assert(false);
            vstd::pervasive::unreached()
        },
    };
    g.write(data, rt);
}

/// Scaling one gradient leaves the others scalable.
proof fn lemma_still_clippable<S>(
    a: Runtime<S>,
    b: Runtime<S>,
    t: Tensor,
    data: Seq<S>,
    ps: Seq<Tensor>,
)
    requires
        a.wf(),
        b.wf(),
        t.is_f32(a.mem),
        data.len() == numel(t.shape@),
        replaced(a, b, t, data),
        all_clippable(a, ps),
    ensures
        all_clippable(b, ps),
{
    lemma_replaced(a, b, t, data);
    assert forall|i: int| 0 <= i < ps.len() implies clippable(b, #[trigger] ps[i]) by {
        assert(clippable(a, ps[i]));
        if has_grad(b, ps[i]) {
            assert(a.gradients@[key_of(ps[i])].valid(b.mem));
        }
    }
}

} // verus!

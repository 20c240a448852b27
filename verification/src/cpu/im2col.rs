//! Convolution lowered to a matrix product.
//!
//! The patches under the window become the columns of a matrix, so that the convolution of one
//! image is the product of the `[cout, patch]` weights and the `[patch, plane]` columns, plus the
//! bias. The product is the caller's, who may reassociate its sums; what goes into it and what is
//! done with its result is exact.
use vstd::prelude::*;
use crate::cpu::batchnorm::lemma_numel4;
use crate::cpu::conv::{
    conv_at, conv_dims, conv_geometry, conv_ok, conv_step, geometry, lemma_planes, lemma_window,
    padded, padded_at, Geometry,
};
use crate::dense::{Dense, Value};
use crate::index::{lemma_bounded_fits, lemma_numel_zero, numel};
use crate::math::{fold, lemma_fold_eq, lemma_index2, lemma_join2, lemma_split2, lemma_split3};
use crate::scalar::Scalar;
use crate::shape::Shape;

verus! {

/// The patches of image `nn`: row `q` holds, for every place of the window, the pixel under
/// weight `q`.
pub open spec fn columns<S: Scalar>(x: Seq<S>, ge: Geometry, nn: int) -> Seq<S> {
    let win = ge.win;
    Seq::new(
        (ge.patch() * ge.plane()) as nat,
        |k: int| column_at(x, ge, nn, k / ge.plane(), k % ge.plane()),
    )
}

/// The pixel under weight `q` when the window stands at place `p`.
pub open spec fn column_at<S: Scalar>(x: Seq<S>, ge: Geometry, nn: int, q: int, p: int) -> S {
    let win = ge.win;
    let c = q / win.kw as int / win.kh as int;
    let i = (q / win.kw as int) % win.kh as int;
    let j = q % win.kw as int;
    let y = p / win.ow as int;
    let xo = p % win.ow as int;
    padded(x, ge, nn, c, y * win.stride + i, xo * win.stride + j)
}

/// Lays out the patches of one image as the columns of a matrix.
pub fn im2col<S: Scalar>(x: &Vec<S>, ge: Geometry, nn: usize) -> (cols: Vec<S>)
    requires
        ge.wf(),
        x@.len() == ge.input_len(),
        nn < ge.n,
        ge.cin * ge.win.kh <= usize::MAX,
        ge.patch() <= usize::MAX,
        ge.plane() <= usize::MAX,
        ge.patch() * ge.plane() <= usize::MAX,
    ensures
        cols@ == columns(x@, ge, nn as int),
{
    let win = ge.win;
    let patch: usize = ge.cin * win.kh * win.kw;
    let plane: usize = win.oh * win.ow;
    let total: usize = patch * plane;
    let mut cols: Vec<S> = Vec::with_capacity(total);
    let mut k: usize = 0;
    while k < total
        invariant
            k <= total == ge.patch() * ge.plane(),
            patch == ge.patch(),
            plane == ge.plane(),
            win == ge.win,
            ge.wf(),
            x@.len() == ge.input_len(),
            nn < ge.n,
            cols@.len() == k,
            forall|t: int| 0 <= t < k ==> cols@[t] == columns(x@, ge, nn as int)[t],
        decreases total - k,
    {
        proof {
            lemma_split2(k as int, patch as int, plane as int);
        }
        let q: usize = k / plane;
        let p: usize = k % plane;
        proof {
            lemma_split3(q as int, ge.cin as int, win.kh as int, win.kw as int);
            lemma_split2(p as int, win.oh as int, win.ow as int);
        }
        let c: usize = q / win.kw / win.kh;
        let i: usize = (q / win.kw) % win.kh;
        let j: usize = q % win.kw;
        let y: usize = p / win.ow;
        let xo: usize = p % win.ow;
        proof {
            lemma_window(
                y as int,
                win.oh as int,
                win.stride as int,
                i as int,
                win.kh as int,
                win.h + 2 * win.padding,
            );
            lemma_window(
                xo as int,
                win.ow as int,
                win.stride as int,
                j as int,
                win.kw as int,
                win.w + 2 * win.padding,
            );
        }
        cols.push(padded_at(x, ge, nn, c, y * win.stride + i, xo * win.stride + j));
        k = k + 1;
    }
    assert(cols@ =~= columns(x@, ge, nn as int));
    cols
}

/// The bias of each channel added to its plane.
pub open spec fn biased<S: Scalar>(products: Seq<S>, bias: Seq<S>, plane: int) -> Seq<S> {
    Seq::new(products.len(), |k: int| S::add_spec(products[k], bias[k / plane]))
}

/// Adds the bias of each channel to its plane of the product.
pub fn add_bias<S: Scalar>(products: &mut Vec<S>, bias: &Vec<S>, cout: usize, plane: usize)
    requires
        old(products)@.len() == cout * plane,
        bias@.len() >= cout,
    ensures
        final(products)@ == biased(old(products)@, bias@, plane as int),
{
    let total: usize = products.len();
    let ghost before = products@;
    let mut k: usize = 0;
    while k < total
        invariant
            k <= total == cout * plane,
            before.len() == total,
            products@.len() == total,
            bias@.len() >= cout,
            forall|t: int| 0 <= t < k ==> products@[t] == biased(before, bias@, plane as int)[t],
            forall|t: int| k <= t < total ==> products@[t] == before[t],
        decreases total - k,
    {
        proof {
            lemma_split2(k as int, cout as int, plane as int);
        }
        let v = products[k].add(bias[k / plane]);
        products[k] = v;
        k = k + 1;
    }
    assert(products@ =~= biased(before, bias@, plane as int));
}

/// A product that takes a `[rows, inner]` and an `[inner, cols]` matrix, row by row, and gives back
/// as many numbers as the `[rows, cols]` matrix has.
pub open spec fn multiplies<S, P: Fn(&Vec<S>, &Vec<S>, usize, usize, usize) -> Vec<S>>(
    product: P,
) -> bool {
    &&& forall|a: Vec<S>, b: Vec<S>, rows: usize, inner: usize, cols: usize|
        a@.len() == rows * inner && b@.len() == inner * cols && rows * cols <= usize::MAX
            ==> #[trigger] call_requires(product, (&a, &b, rows, inner, cols))
    &&& forall|a: Vec<S>, b: Vec<S>, rows: usize, inner: usize, cols: usize, c: Vec<S>|
        a@.len() == rows * inner && b@.len() == inner * cols && rows * cols <= usize::MAX
            && #[trigger] call_ensures(product, (&a, &b, rows, inner, cols), c) ==> c@.len() == rows
            * cols
}

/// What the product may give back for the weights and the columns of image `nn`.
pub open spec fn image_product<S: Scalar, P: Fn(&Vec<S>, &Vec<S>, usize, usize, usize) -> Vec<S>>(
    product: P,
    x: Seq<S>,
    wt: Seq<S>,
    ge: Geometry,
    nn: int,
    r: Seq<S>,
) -> bool {
    exists|a: Vec<S>, b: Vec<S>, c: Vec<S>|
        a@ == wt && b@ == columns(x, ge, nn) && c@ == r && #[trigger] call_ensures(
            product,
            (&a, &b, ge.cout, ge.patch() as usize, ge.plane() as usize),
            c,
        )
}

/// The images' products, one behind the other, each with the bias of its channels.
pub open spec fn fast_value<S: Scalar>(
    products: Seq<Seq<S>>,
    bias: Seq<S>,
    ge: Geometry,
) -> Value<S> {
    let image = ge.cout * ge.plane();
    Value {
        dims: conv_dims(ge),
        data: Seq::new(
            numel(conv_dims(ge)),
            |o: int| S::add_spec(products[o / image][o % image], bias[(o % image) / ge.plane()]),
        ),
    }
}

/// The columns of an image fit the machine, when there is anything to compute.
pub open spec fn fast_fits(ge: Geometry) -> bool {
    numel(conv_dims(ge)) > 0 ==> {
        &&& ge.cin * ge.win.kh <= usize::MAX
        &&& ge.patch() <= usize::MAX
        &&& ge.patch() * ge.plane() <= usize::MAX
    }
}

/// Fast two-dimensional convolution: for every image the weights times the columns of its patches,
/// plus the bias.
///
/// The result is that of the direct convolution up to the order in which the product adds. The
/// columns of one image take `cin*kh*kw*oh*ow` numbers, which is `kh*kw` times the input.
pub fn conv2d_fast<S: Scalar, P: Fn(&Vec<S>, &Vec<S>, usize, usize, usize) -> Vec<S>>(
    input: &Dense<S>,
    weight: &Dense<S>,
    bias: &Dense<S>,
    stride: usize,
    padding: usize,
    product: P,
) -> (r: Dense<S>)
    requires
        input.wf(),
        weight.wf(),
        bias.wf(),
        conv_ok(input@, weight@, bias@, stride, padding),
        fast_fits(conv_geometry(input@.dims, weight@.dims, stride, padding)),
        multiplies(product),
    ensures
        r.wf(),
        ({
            let ge = conv_geometry(input@.dims, weight@.dims, stride, padding);
            exists|products: Seq<Seq<S>>|
                {
                    &&& r@ == #[trigger] fast_value(products, bias@.data, ge)
                    &&& numel(conv_dims(ge)) > 0 ==> products.len() == ge.n
                    &&& forall|i: int|
                        0 <= i < products.len() ==> image_product(
                            product,
                            input@.data,
                            weight@.data,
                            ge,
                            i,
                            #[trigger] products[i],
                        )
                }
        }),
{
    let ge = geometry(input, weight, bias, stride, padding);
    let shape = Shape::from([ge.n, ge.cout, ge.win.oh, ge.win.ow]);
    let ghost mut products: Seq<Seq<S>> = Seq::empty();
    let mut data: Vec<S> = Vec::new();
    proof {
        assert(shape@ =~= conv_dims(ge));
        lemma_numel4(conv_dims(ge));
        lemma_numel4(input@.dims);
        lemma_numel4(weight@.dims);
        lemma_bounded_fits(conv_dims(ge));
        lemma_planes(ge.n as int, ge.cout as int, ge.win.oh as int, ge.win.ow as int);
    }
    if shape.numel() == 0 {
        assert(data@ =~= fast_value(products, bias@.data, ge).data);
        return Dense::new(shape, data);
    }
    proof {
        lemma_numel_zero(conv_dims(ge));
        assert(ge.n > 0 && ge.cout > 0);
        lemma_fast_sizes(ge);
    }
    let patch: usize = ge.cin * ge.win.kh * ge.win.kw;
    let plane: usize = ge.win.oh * ge.win.ow;
    let ghost image = ge.cout * plane;
    let mut nn: usize = 0;
    while nn < ge.n
        invariant
            nn <= ge.n,
            ge.wf(),
            ge.cout > 0,
            input.wf(),
            weight.wf(),
            bias.wf(),
            input@.data.len() == ge.input_len(),
            weight@.data.len() == ge.cout * patch,
            bias@.data.len() >= ge.cout,
            patch == ge.patch(),
            plane == ge.plane(),
            ge.cin * ge.win.kh <= usize::MAX,
            ge.patch() * ge.plane() <= usize::MAX,
            image == ge.cout * plane,
            0 < image <= usize::MAX,
            multiplies(product),
            products.len() == nn,
            forall|i: int|
                0 <= i < nn ==> image_product(
                    product,
                    input@.data,
                    weight@.data,
                    ge,
                    i,
                    #[trigger] products[i],
                ),
            data@.len() == nn * image,
            forall|o: int|
                0 <= o < nn * image ==> #[trigger] data@[o] == S::add_spec(
                    products[o / image][o % image],
                    bias@.data[(o % image) / (plane as int)],
                ),
        decreases ge.n - nn,
    {
        let cols = im2col(input.data(), ge, nn);
        let mut out = product(weight.data(), &cols, ge.cout, patch, plane);
        let ghost c = out@;
        add_bias(&mut out, bias.data(), ge.cout, plane);
        let ghost before = data@;
        data.append(&mut out);
        proof {
            assert(image_product(product, input@.data, weight@.data, ge, nn as int, c));
            let ps = products.push(c);
            assert(nn * image + image == (nn + 1) * image) by (nonlinear_arith);
            assert forall|o: int| 0 <= o < (nn + 1) * image implies #[trigger] data@[o]
                == S::add_spec(
                ps[o / image][o % image],
                bias@.data[(o % image) / (plane as int)],
            ) by {
                if o < nn * image {
                    lemma_split2(o, nn as int, image);
                    assert(data@[o] == before[o]);
                } else {
                    lemma_join2(nn as int, o - nn * image, image);
                    assert(data@[o] == biased(c, bias@.data, plane as int)[o - nn * image]);
                }
            }
            products = ps;
        }
        nn = nn + 1;
    }
    proof {
        assert(ge.n * image == numel(conv_dims(ge))) by {
            assert(ge.n * (ge.cout * ge.plane()) == (ge.n * ge.cout) * ge.plane())
                by (nonlinear_arith);
        }
        assert(data@ =~= fast_value(products, bias@.data, ge).data);
    }
    Dense::new(shape, data)
}

proof fn lemma_fast_sizes(ge: Geometry)
    requires
        ge.wf(),
        ge.n > 0,
        ge.cout > 0,
        ge.win.oh > 0,
        ge.win.ow > 0,
    ensures
        ge.plane() <= usize::MAX,
        0 < ge.cout * ge.plane() <= usize::MAX,
        ge.weight_len() == ge.cout * ge.patch(),
{
    lemma_planes(ge.n as int, ge.cout as int, ge.win.oh as int, ge.win.ow as int);
    assert(ge.weight_len() == ge.cout * ge.patch()) by (nonlinear_arith)
        requires
            ge.weight_len() == ((ge.cout * ge.cin) * ge.win.kh) * ge.win.kw,
            ge.patch() == (ge.cin * ge.win.kh) * ge.win.kw,
    ;
    assert(0 < ge.plane()) by (nonlinear_arith)
        requires
            ge.plane() == ge.win.oh * ge.win.ow,
            ge.win.oh > 0,
            ge.win.ow > 0,
    ;
    assert(0 < ge.cout * ge.plane() <= (ge.n * ge.cout) * ge.plane()) by (nonlinear_arith)
        requires
            ge.plane() > 0,
            ge.n > 0,
            ge.cout > 0,
    ;
}

/// One weight's part in a pixel, read from the columns.
pub open spec fn column_step<S: Scalar>(
    x: Seq<S>,
    wt: Seq<S>,
    ge: Geometry,
    nn: int,
    co: int,
    p: int,
) -> spec_fn(int, S) -> S {
    |q: int, acc: S|
        {
            let w_val = wt[co * ge.patch() + q];
            if S::eq_zero_spec(w_val) {
                acc
            } else {
                S::mul_add_spec(w_val, columns(x, ge, nn)[q * ge.plane() + p], acc)
            }
        }
}

/// The columns of an image hold what the direct convolution reads: a pixel of the output is the
/// bias and, for every weight that is not zero, its product with an element of the column of that
/// pixel's place, added up in order.
pub proof fn law_columns_convolve<S: Scalar>(
    x: Seq<S>,
    wt: Seq<S>,
    b: Seq<S>,
    ge: Geometry,
    nn: int,
    co: int,
    y: int,
    xo: int,
)
    requires
        0 <= y < ge.win.oh,
        0 <= xo < ge.win.ow,
    ensures
        conv_at(x, wt, b, ge, nn, co, y, xo) == fold(
            ge.patch() as nat,
            b[co],
            column_step(x, wt, ge, nn, co, y * ge.win.ow + xo),
        ),
{
    let f = conv_step(x, wt, ge, nn, co, y, xo);
    let p = y * ge.win.ow + xo;
    let g = column_step(x, wt, ge, nn, co, p);
    lemma_index2(y, ge.win.oh as int, xo, ge.win.ow as int);
    lemma_join2(y, xo, ge.win.ow as int);
    assert forall|q: int, acc: S| 0 <= q < ge.patch() implies #[trigger] f(q, acc) == g(q, acc) by {
        lemma_index2(q, ge.patch(), p, ge.plane());
        lemma_join2(q, p, ge.plane());
        assert(columns(x, ge, nn)[q * ge.plane() + p] == column_at(x, ge, nn, q, p));
    }
    lemma_fold_eq(ge.patch() as nat, b[co], f, g);
}

} // verus!

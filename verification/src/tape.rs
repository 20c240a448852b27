//! The autograd tape.
use vstd::prelude::*;
use crate::cells::Meta;
use crate::op::OpType;
use crate::storage::StorageId;
use crate::tensor::{retained, same_room, Key, Memory, Tensor};

verus! {

/// A node in the autograd computation graph.
#[derive(Debug)]
pub struct Node {
    /// The unique identifier of this node.
    pub id: u32,
    /// The type of operation performed.
    pub op: OpType,
    /// The node ids of the inputs to this operation (`Some(id)` if tracked, `None` otherwise).
    pub inputs: Vec<Option<u32>>,
    /// Tensor handles of the inputs, kept for the gradient calculation.
    pub saved_tensors: Vec<Tensor>,
    /// Value of the randomness counter when this node's forward ran. Only checkpoint nodes use
    /// it: recomputation rewinds to this value so that any random draw inside the block
    /// comes out as it did the first time.
    pub rng_counter: u64,
}

/// What a node records.
#[verifier::ext_equal]
pub ghost struct NodeView {
    pub id: u32,
    pub op: OpType,
    pub inputs: Seq<Option<u32>>,
    pub saved: Seq<Tensor>,
    pub rng_counter: u64,
}

impl Node {
    pub open spec fn view(self) -> NodeView {
        NodeView {
            id: self.id,
            op: self.op,
            inputs: self.inputs@,
            saved: self.saved_tensors@,
            rng_counter: self.rng_counter,
        }
    }
}

/// The autograd computation tape.
#[derive(Debug)]
pub struct Tape {
    /// Flat vector containing all nodes in order of execution.
    pub nodes: Vec<Node>,
    /// Bumped on every reset so that node tokens still held by leaf tensors from a previous tape
    /// become stale and are ignored.
    pub generation: u32,
}

/// The node of a leaf tensor: no inputs, nothing saved.
pub open spec fn leaf_node(id: u32) -> NodeView {
    NodeView {
        id,
        op: OpType::Add,
        inputs: Seq::empty(),
        saved: Seq::empty(),
        rng_counter: 0,
    }
}

/// The token of node `index` on the tape of a generation.
pub open spec fn pack_spec(generation: u32, index: u32) -> u64 {
    (((generation as u64) << 32) | index as u64) as u64
}

pub open spec fn token_generation(token: u64) -> u32 {
    (token >> 32) as u32
}

pub open spec fn token_index(token: u64) -> u32 {
    token as u32
}

/// A token gives back the generation and the index that it was packed from.
pub proof fn law_token_round_trip(generation: u32, index: u32)
    ensures
        token_generation(pack_spec(generation, index)) == generation,
        token_index(pack_spec(generation, index)) == index,
{
    assert(((((generation as u64) << 32) | index as u64) >> 32) as u32 == generation)
        by (bit_vector);
    assert((((generation as u64) << 32) | index as u64) as u32 == index) by (bit_vector);
}

/// The node that a token names on the tape of a generation; a token of another generation names
/// none.
pub open spec fn live_index(token: Option<u64>, generation: u32) -> Option<u32> {
    match token {
        Some(t) => if token_generation(t) == generation {
            Some(token_index(t))
        } else {
            None
        },
        None => None,
    }
}

/// How inputs are named on the tape: the metadata after leaves have got nodes, the number of
/// nodes, and the node ids of the inputs.
#[verifier::ext_equal]
pub ghost struct Naming {
    pub cells: Map<usize, Meta>,
    pub count: nat,
    pub ids: Seq<Option<u32>>,
}

/// Names the first `n` inputs: an input with a live token keeps its node, one that requires
/// gradients becomes a leaf with the next free node, any other has none.
pub open spec fn name_inputs(
    generation: u32,
    cells: Map<usize, Meta>,
    count: nat,
    inputs: Seq<Tensor>,
    n: int,
) -> Naming
    decreases n,
{
    if n <= 0 {
        Naming { cells, count, ids: Seq::empty() }
    } else {
        let p = name_inputs(generation, cells, count, inputs, n - 1);
        let cell = inputs[n - 1].cell;
        let m = p.cells[cell];
        match live_index(m.node_id, generation) {
            Some(i) => Naming { ids: p.ids.push(Some(i)), ..p },
            None => if m.requires_grad {
                Naming {
                    cells: p.cells.insert(
                        cell,
                        Meta {
                            node_id: Some(pack_spec(generation, p.count as u32)),
                            requires_grad: true,
                        },
                    ),
                    count: p.count + 1,
                    ids: p.ids.push(Some(p.count as u32)),
                }
            } else {
                Naming { ids: p.ids.push(None), ..p }
            },
        }
    }
}

/// How many of the tensors share a block.
pub open spec fn count_key(ts: Seq<Tensor>, key: Key) -> nat
    decreases ts.len(),
{
    if ts.len() == 0 {
        0
    } else {
        count_key(ts.drop_last(), key) + (if ts.last().key() == key {
            1nat
        } else {
            0nat
        })
    }
}

pub proof fn lemma_count_push(ts: Seq<Tensor>, t: Tensor, key: Key)
    ensures
        count_key(ts.push(t), key) == count_key(ts, key) + (if t.key() == key {
            1nat
        } else {
            0nat
        }),
{
    assert(ts.push(t).drop_last() =~= ts);
}

pub proof fn lemma_count_add(a: Seq<Tensor>, b: Seq<Tensor>, key: Key)
    ensures
        count_key(a + b, key) == count_key(a, key) + count_key(b, key),
    decreases b.len(),
{
    if b.len() == 0 {
        assert(a + b =~= a);
    } else {
        lemma_count_add(a, b.drop_last(), key);
        assert((a + b).drop_last() =~= a + b.drop_last());
    }
}

/// Both sequences of handles share the same blocks, place by place.
pub proof fn lemma_count_same(a: Seq<Tensor>, b: Seq<Tensor>, key: Key)
    requires
        a.len() == b.len(),
        forall|i: int| 0 <= i < a.len() ==> (#[trigger] a[i]).key() == b[i].key(),
    ensures
        count_key(a, key) == count_key(b, key),
    decreases a.len(),
{
    if a.len() > 0 {
        assert(a[a.len() - 1].key() == b[a.len() - 1].key());
        lemma_count_same(a.drop_last(), b.drop_last(), key);
    }
}

pub proof fn lemma_count_at(ts: Seq<Tensor>, i: int)
    requires
        0 <= i < ts.len(),
    ensures
        count_key(ts, ts[i].key()) >= 1,
    decreases ts.len(),
{
    if i < ts.len() - 1 {
        lemma_count_at(ts.drop_last(), i);
    }
}

/// Every block in use in `new_mem` is in use in `old_mem`, with the same contents.
pub open spec fn same_blocks<S>(old_mem: Memory<S>, new_mem: Memory<S>) -> bool {
    &&& forall|id: StorageId| #[trigger]
        new_mem.arena@.contains_key(id) ==> old_mem.arena@.contains_key(id)
            && new_mem.arena@[id].block == old_mem.arena@[id].block
    &&& forall|i: u32| #[trigger]
        new_mem.cuda@.contains_key(i) ==> old_mem.cuda@.contains_key(i) && new_mem.cuda@[i].len
            == old_mem.cuda@[i].len
}

/// Blocks in use in both memories have the same contents.
pub open spec fn blocks_agree<S>(a: Memory<S>, b: Memory<S>) -> bool {
    &&& forall|id: StorageId|
        a.arena@.contains_key(id) && #[trigger] b.arena@.contains_key(id) ==> a.arena@[id].block
            == b.arena@[id].block
    &&& forall|i: u32|
        a.cuda@.contains_key(i) && #[trigger] b.cuda@.contains_key(i) ==> a.cuda@[i].len
            == b.cuda@[i].len
}

/// One more reference, in numbers.
pub proof fn lemma_retained<S>(a: Memory<S>, b: Memory<S>, key: Key)
    requires
        retained(a, b, key),
        match key {
            Key::Cpu(id) => a.arena@.contains_key(id),
            Key::Cuda(i) => a.cuda@.contains_key(i) && a.cuda@[i].ref_count < usize::MAX,
        },
    ensures
        same_blocks(a, b),
        forall|k: Key| #[trigger]
            b.refs(k) == a.refs(k) + (if k == key {
                1nat
            } else {
                0nat
            }),
        forall|id: StorageId|
            a.arena@.contains_key(id) ==> #[trigger] b.arena@.contains_key(id),
        forall|i: u32| a.cuda@.contains_key(i) ==> #[trigger] b.cuda@.contains_key(i),
{
}

/// The block of a valid handle has a reference.
pub proof fn lemma_valid_refs<S>(mem: Memory<S>, t: Tensor)
    requires
        mem.wf(),
        t.valid(mem),
    ensures
        mem.refs(t.key()) > 0,
{
    mem.arena.lemma_wf();
    assert(t.device is Cpu ==> mem.arena@.contains_key(t.storage_id));
}

/// A handle stays valid while its block and its cell do.
pub proof fn lemma_valid_kept<S>(a: Memory<S>, b: Memory<S>, t: Tensor)
    requires
        t.valid(a),
        blocks_agree(a, b),
        b.refs(t.key()) > 0,
        b.cells@.contains_key(t.cell),
    ensures
        t.valid(b),
        t.device is Cpu ==> t.block(b) == t.block(a),
        t.value(b) == t.value(a) || !(t.device is Cpu),
{
}

impl Tape {
    /// The recorded nodes.
    pub open spec fn view(self) -> Seq<NodeView> {
        self.nodes@.map_values(|n: Node| n@)
    }

    /// Node ids are positions on the tape.
    pub open spec fn wf(self) -> bool {
        &&& self.nodes@.len() <= u32::MAX
        &&& forall|i: int|
            0 <= i < self.nodes@.len() ==> (#[trigger] self.nodes@[i]).id == i
                && self.nodes@[i].inputs@.len() == self.nodes@[i].saved_tensors@.len()
    }

    /// An empty tape of the first generation.
    pub fn new() -> (t: Self)
        ensures
            t.wf(),
            t@ == Seq::<NodeView>::empty(),
            t.generation == 0,
    {
        let t = Tape { nodes: Vec::new(), generation: 0 };
        assert(t@ =~= Seq::<NodeView>::empty());
        t
    }

    /// Packs a `(generation, index)` pair into an opaque node token.
    pub fn pack(generation: u32, index: u32) -> (token: u64)
        ensures
            token == pack_spec(generation, index),
    {
        ((generation as u64) << 32) | index as u64
    }

    /// Unpacks a node token into its `(generation, index)` pair.
    pub fn unpack(token: u64) -> (r: (u32, u32))
        ensures
            r.0 == token_generation(token),
            r.1 == token_index(token),
    {
        ((token >> 32) as u32, token as u32)
    }

    /// The node that a token names on this tape, if any.
    pub fn live(&self, token: Option<u64>) -> (r: Option<u32>)
        ensures
            r == live_index(token, self.generation),
    {
        match token {
            Some(t) => {
                let (generation, index) = Self::unpack(t);
                if generation == self.generation {
                    Some(index)
                } else {
                    None
                }
            },
            None => None,
        }
    }
}

/// The tensors behind a list of references.
pub open spec fn derefs(ts: Seq<&Tensor>) -> Seq<Tensor> {
    ts.map_values(|t: &Tensor| *t)
}

/// Saved handles share the blocks and layouts of the inputs, each with a cell of its own that
/// holds the metadata of the input.
pub open spec fn saved_for(
    saved: Seq<Tensor>,
    inputs: Seq<Tensor>,
    before: Map<usize, Meta>,
    after: Map<usize, Meta>,
) -> bool {
    &&& saved.len() == inputs.len()
    &&& forall|i: int|
        0 <= i < saved.len() ==> {
            let s = #[trigger] saved[i];
            &&& s == (Tensor { cell: s.cell, ..inputs[i] })
            &&& !before.contains_key(s.cell)
            &&& after.contains_key(s.cell)
            &&& after[s.cell] == before[inputs[i].cell]
        }
    &&& forall|i: int, j: int| 0 <= i < j < saved.len() ==> saved[i].cell != saved[j].cell
    &&& forall|c: usize| #[trigger]
        after.contains_key(c) <==> before.contains_key(c) || exists|i: int|
            0 <= i < saved.len() && saved[i].cell == c
    &&& forall|c: usize| #[trigger] before.contains_key(c) ==> after[c] == before[c]
}

/// Handles to the same blocks as the inputs, to be kept on the tape.
pub(crate) fn save_inputs<S>(inputs: &[&Tensor], mem: &mut Memory<S>) -> (saved: Vec<Tensor>)
    requires
        old(mem).wf(),
        forall|i: int| 0 <= i < inputs@.len() ==> (#[trigger] inputs@[i]).valid(*old(mem)),
        forall|i: int|
            0 <= i < inputs@.len() ==> old(mem).refs((#[trigger] inputs@[i]).key()) + inputs@.len()
                <= usize::MAX,
        old(mem).cells.room() >= inputs@.len(),
    ensures
        final(mem).wf(),
        saved_for(saved@, derefs(inputs@), old(mem).cells@, final(mem).cells@),
        same_blocks(*old(mem), *final(mem)),
        forall|k: Key| #[trigger]
            final(mem).refs(k) == old(mem).refs(k) + count_key(derefs(inputs@), k),
        final(mem).cells.room() == old(mem).cells.room() - inputs@.len(),
        same_room(*old(mem), *final(mem)),
{
    let ghost start = *mem;
    let ghost ins = derefs(inputs@);
    let mut saved: Vec<Tensor> = Vec::with_capacity(inputs.len());
    let mut i: usize = 0;
    assert(ins.take(0) =~= Seq::<Tensor>::empty());
    while i < inputs.len()
        invariant
            i <= inputs@.len(),
            ins == derefs(inputs@),
            start == *old(mem),
            start.wf(),
            mem.wf(),
            saved@.len() == i,
            forall|j: int| 0 <= j < inputs@.len() ==> (#[trigger] inputs@[j]).valid(start),
            forall|j: int|
                0 <= j < inputs@.len() ==> start.refs((#[trigger] inputs@[j]).key())
                    + inputs@.len() <= usize::MAX,
            start.cells.room() >= inputs@.len(),
            mem.cells.room() == start.cells.room() - i,
            same_room(start, *mem),
            same_blocks(start, *mem),
            forall|k: Key| #[trigger]
                mem.refs(k) == start.refs(k) + count_key(ins.take(i as int), k),
            saved_for(saved@, ins.take(i as int), start.cells@, mem.cells@),
        decreases inputs@.len() - i,
    {
        let t: &Tensor = inputs[i];
        let ghost before = *mem;
        proof {
            assert(inputs@[i as int].valid(start));
            lemma_valid_refs(start, *t);
            assert(mem.refs(t.key()) > 0);
            lemma_count_le(ins.take(i as int), t.key());
            lemma_valid_kept(start, *mem, *t);
        }
        let s = mem.share(t, t.shape, t.strides);
        proof {
            lemma_retained(before, *mem, t.key());
            assert(ins.take(i + 1) =~= ins.take(i as int).push(*t));
            assert forall|k: Key| #[trigger]
                mem.refs(k) == start.refs(k) + count_key(ins.take(i + 1), k) by {
                lemma_count_push(ins.take(i as int), *t, k);
                assert(before.refs(k) == start.refs(k) + count_key(ins.take(i as int), k));
            }
            let before_saved = saved@;
            assert forall|c: usize| #[trigger]
                mem.cells@.contains_key(c) <==> start.cells@.contains_key(c) || exists|j: int|
                    0 <= j < i + 1 && before_saved.push(s)[j].cell == c by {
                if before.cells@.contains_key(c) && !start.cells@.contains_key(c) {
                    let j = choose|j: int| 0 <= j < i && before_saved[j].cell == c;
                    assert(before_saved.push(s)[j].cell == c);
                }
                if c == s.cell {
                    assert(before_saved.push(s)[i as int].cell == c);
                }
                if exists|j: int| 0 <= j < i + 1 && before_saved.push(s)[j].cell == c {
                    let j = choose|j: int| 0 <= j < i + 1 && before_saved.push(s)[j].cell == c;
                    if j < i {
                        assert(before_saved[j].cell == c);
                        assert(before.cells@.contains_key(c));
                    }
                }
            }
        }
        saved.push(s);
        i = i + 1;
    }
    assert(ins.take(i as int) =~= ins);
    saved
}

pub proof fn lemma_count_le(ts: Seq<Tensor>, key: Key)
    ensures
        count_key(ts, key) <= ts.len(),
    decreases ts.len(),
{
    if ts.len() > 0 {
        lemma_count_le(ts.drop_last(), key);
    }
}

/// Naming inputs only changes metadata of inputs.
pub proof fn lemma_name_inputs(
    generation: u32,
    cells: Map<usize, Meta>,
    count: nat,
    inputs: Seq<Tensor>,
    n: int,
)
    requires
        0 <= n <= inputs.len(),
        forall|i: int| 0 <= i < inputs.len() ==> cells.contains_key((#[trigger] inputs[i]).cell),
    ensures
        ({
            let r = name_inputs(generation, cells, count, inputs, n);
            &&& r.cells.dom() == cells.dom()
            &&& r.ids.len() == n
            &&& count <= r.count <= count + n
            &&& forall|c: usize| #[trigger]
                cells.contains_key(c) ==> r.cells[c].requires_grad == cells[c].requires_grad
        }),
    decreases n,
{
    if n > 0 {
        lemma_name_inputs(generation, cells, count, inputs, n - 1);
        let r = name_inputs(generation, cells, count, inputs, n);
        assert(cells.contains_key(inputs[n - 1].cell));
        assert(r.cells.dom() =~= cells.dom());
    }
}

impl Tape {
    /// Names the inputs of a node; leaves get nodes of their own.
    fn name(&mut self, inputs: &[&Tensor], cells: &mut crate::cells::Cells) -> (ids: Vec<
        Option<u32>,
    >)
        requires
            old(self).wf(),
            old(self).nodes@.len() + inputs@.len() <= u32::MAX,
            old(cells).wf(),
            forall|i: int|
                0 <= i < inputs@.len() ==> old(cells)@.contains_key((#[trigger] inputs@[i]).cell),
        ensures
            final(self).wf(),
            final(self).generation == old(self).generation,
            final(cells).wf(),
            final(cells).room() == old(cells).room(),
            ({
                let r = name_inputs(
                    old(self).generation,
                    old(cells)@,
                    old(self).nodes@.len(),
                    derefs(inputs@),
                    inputs@.len() as int,
                );
                &&& ids@ == r.ids
                &&& final(cells)@ == r.cells
                &&& final(self)@ == old(self)@ + Seq::new(
                    (r.count - old(self).nodes@.len()) as nat,
                    |i: int| leaf_node((old(self).nodes@.len() + i) as u32),
                )
            }),
    {
        let ghost start = self.nodes@.len();
        let ghost nodes0 = self@;
        let ghost gen0 = self.generation;
        let ghost cells0 = cells@;
        let ghost ins = derefs(inputs@);
        let mut ids: Vec<Option<u32>> = Vec::with_capacity(inputs.len());
        let mut i: usize = 0;
        assert(self@ =~= nodes0 + Seq::new(
            0nat,
            |i: int| leaf_node((start + i) as u32),
        ));
        while i < inputs.len()
            invariant
                i <= inputs@.len(),
                ins == derefs(inputs@),
                self.wf(),
                start == old(self).nodes@.len(),
                nodes0 == old(self)@,
                nodes0.len() == start,
                gen0 == old(self).generation,
                self.generation == gen0,
                cells0 == old(cells)@,
                cells.wf(),
                cells.room() == old(cells).room(),
                start + inputs@.len() <= u32::MAX,
                forall|j: int|
                    0 <= j < ins.len() ==> cells0.contains_key((#[trigger] ins[j]).cell),
                ({
                    let r = name_inputs(gen0, cells0, start, ins, i as int);
                    &&& ids@ == r.ids
                    &&& cells@ == r.cells
                    &&& self.nodes@.len() == r.count
                    &&& self@ == nodes0 + Seq::new(
                        (r.count - start) as nat,
                        |k: int| leaf_node((start + k) as u32),
                    )
                }),
            decreases inputs@.len() - i,
        {
            let t: &Tensor = inputs[i];
            let ghost r0 = name_inputs(gen0, cells0, start, ins, i as int);
            let ghost r1 = name_inputs(gen0, cells0, start, ins, i + 1);
            proof {
                lemma_name_inputs(gen0, cells0, start, ins, i as int);
                assert(ins[i as int] == *t);
                assert(cells0.contains_key(t.cell));
            }
            let meta = cells.get(t.cell);
            match self.live(meta.node_id) {
                Some(index) => {
                    ids.push(Some(index));
                },
                None => {
                    if meta.requires_grad {
                        let leaf_id: u32 = self.nodes.len() as u32;
                        let node = Node {
                            id: leaf_id,
                            op: OpType::Add,
                            inputs: Vec::new(),
                            saved_tensors: Vec::new(),
                            rng_counter: 0,
                        };
                        let ghost before = self@;
                        let ghost nodes_before = self.nodes@;
                        assert(node@ =~= leaf_node(leaf_id));
                        self.nodes.push(node);
                        proof {
                            assert(self@ =~= before.push(node@));
                            assert(self@ =~= nodes0 + Seq::new(
                                (r1.count - start) as nat,
                                |k: int| leaf_node((start + k) as u32),
                            ));
                            assert forall|k: int| 0 <= k < self.nodes@.len() implies (
                            #[trigger] self.nodes@[k]).id == k && self.nodes@[k].inputs@.len()
                                == self.nodes@[k].saved_tensors@.len() by {
                                if k < nodes_before.len() {
                                    assert(nodes_before[k] == self.nodes@[k]);
                                }
                            }
                        }
                        let token = Self::pack(self.generation, leaf_id);
                        cells.set(t.cell, Meta { node_id: Some(token), requires_grad: true });
                        ids.push(Some(leaf_id));
                    } else {
                        ids.push(None);
                    }
                },
            }
            i = i + 1;
        }
        ids
    }

    /// Pushes a new node onto the tape, returning the output node's packed token.
    ///
    /// Inputs that require gradients and are not on this tape yet become leaves first. The node
    /// keeps a handle to every input.
    pub fn push<S>(
        &mut self,
        op: OpType,
        inputs: &[&Tensor],
        rng_counter: u64,
        mem: &mut Memory<S>,
    ) -> (token: u64)
        requires
            old(self).wf(),
            old(self).nodes@.len() + inputs@.len() + 1 <= u32::MAX,
            old(mem).wf(),
            forall|i: int| 0 <= i < inputs@.len() ==> (#[trigger] inputs@[i]).valid(*old(mem)),
            forall|i: int|
                0 <= i < inputs@.len() ==> old(mem).refs((#[trigger] inputs@[i]).key())
                    + inputs@.len() <= usize::MAX,
            old(mem).cells.room() >= inputs@.len(),
        ensures
            final(self).wf(),
            final(self).generation == old(self).generation,
            final(mem).wf(),
            same_blocks(*old(mem), *final(mem)),
            forall|k: Key| #[trigger]
                final(mem).refs(k) == old(mem).refs(k) + count_key(derefs(inputs@), k),
            final(mem).cells.room() == old(mem).cells.room() - inputs@.len(),
            same_room(*old(mem), *final(mem)),
            pushed(
                old(self)@,
                final(self)@,
                old(mem).cells@,
                final(mem).cells@,
                old(self).generation,
                op,
                derefs(inputs@),
                rng_counter,
            ),
            token == pack_spec(old(self).generation, (final(self)@.len() - 1) as u32),
    {
        let ghost before = *self;
        let ghost mem0 = *mem;
        assert forall|i: int| 0 <= i < inputs@.len() implies mem.cells@.contains_key(
            (#[trigger] inputs@[i]).cell,
        ) by {
            assert(inputs@[i].valid(*mem));
        }
        let ids = self.name(inputs, &mut mem.cells);
        proof {
            assert forall|i: int| 0 <= i < derefs(inputs@).len() implies mem0.cells@.contains_key(
                (#[trigger] derefs(inputs@)[i]).cell,
            ) by {
                assert(inputs@[i].valid(mem0));
            }
            lemma_name_inputs(
                self.generation,
                mem0.cells@,
                before.nodes@.len(),
                derefs(inputs@),
                inputs@.len() as int,
            );
            assert forall|i: int| 0 <= i < inputs@.len() implies (#[trigger] inputs@[i]).valid(
                *mem,
            ) by {
                assert(inputs@[i].valid(mem0));
            }
            assert forall|i: int| 0 <= i < inputs@.len() implies mem.refs(
                (#[trigger] inputs@[i]).key(),
            ) + inputs@.len() <= usize::MAX by {
                assert(mem0.refs(inputs@[i].key()) + inputs@.len() <= usize::MAX);
            }
        }
        let ghost mem1 = *mem;
        let saved = save_inputs(inputs, mem);
        let ghost named = self@;
        let ghost nodes1 = self.nodes@;
        assert(named.len() == nodes1.len());
        let id: u32 = self.nodes.len() as u32;
        let node = Node { id, op, inputs: ids, saved_tensors: saved, rng_counter };
        self.nodes.push(node);
        proof {
            assert(self@ =~= named.push(node@));
            assert(self@.drop_last() =~= named);
            assert forall|k: int| 0 <= k < self.nodes@.len() implies (#[trigger] self.nodes@[k]).id
                == k && self.nodes@[k].inputs@.len() == self.nodes@[k].saved_tensors@.len() by {
                if k < nodes1.len() {
                    assert(nodes1[k] == self.nodes@[k]);
                }
            }
        }
        Self::pack(self.generation, id)
    }

    /// Clears the tape and bumps the generation so that every outstanding node token is
    /// invalidated. Returns the handles that the nodes kept.
    pub fn reset(&mut self) -> (saved: Vec<Node>)
        ensures
            final(self).wf(),
            final(self)@ == Seq::<NodeView>::empty(),
            final(self).generation == (if old(self).generation == u32::MAX {
                0
            } else {
                old(self).generation + 1
            }),
            saved@ == old(self).nodes@,
    {
        let mut nodes: Vec<Node> = Vec::new();
        std::mem::swap(&mut nodes, &mut self.nodes);
        self.generation = self.generation.wrapping_add(1);
        assert(self@ =~= Seq::<NodeView>::empty());
        nodes
    }
}

/// The tape after an operation was recorded: its leaves, then its own node.
pub open spec fn pushed(
    before: Seq<NodeView>,
    after: Seq<NodeView>,
    cells_before: Map<usize, Meta>,
    cells_after: Map<usize, Meta>,
    generation: u32,
    op: OpType,
    inputs: Seq<Tensor>,
    rng_counter: u64,
) -> bool {
    let r = name_inputs(generation, cells_before, before.len(), inputs, inputs.len() as int);
    let leaves = Seq::new(
        (r.count - before.len()) as nat,
        |i: int| leaf_node((before.len() + i) as u32),
    );
    &&& after.len() == r.count + 1
    &&& after.drop_last() == before + leaves
    &&& after.last() == (NodeView {
        id: r.count as u32,
        op,
        inputs: r.ids,
        saved: after.last().saved,
        rng_counter,
    })
    &&& saved_for(after.last().saved, inputs, r.cells, cells_after)
}

/// A token made before a reset names no node afterwards.
pub proof fn law_reset_invalidates(generation: u32, index: u32)
    ensures
        live_index(
            Some(pack_spec(generation, index)),
            if generation == u32::MAX {
                0
            } else {
                (generation + 1) as u32
            },
        ) is None,
        live_index(Some(pack_spec(generation, index)), generation) == Some(index),
{
    law_token_round_trip(generation, index);
}

/// The inputs of a recorded operation come before it on the tape.
pub proof fn law_inputs_before(
    before: Seq<NodeView>,
    after: Seq<NodeView>,
    cells_before: Map<usize, Meta>,
    cells_after: Map<usize, Meta>,
    generation: u32,
    op: OpType,
    inputs: Seq<Tensor>,
    rng_counter: u64,
    i: int,
)
    requires
        pushed(
            before,
            after,
            cells_before,
            cells_after,
            generation,
            op,
            inputs,
            rng_counter,
        ),
        before.len() + inputs.len() <= u32::MAX,
        forall|k: int|
            0 <= k < inputs.len() ==> cells_before.contains_key((#[trigger] inputs[k]).cell),
        forall|c: usize| #[trigger]
            cells_before.contains_key(c) ==> (live_index(cells_before[c].node_id, generation)
                matches Some(j) ==> j < before.len()),
        0 <= i < inputs.len(),
    ensures
        after.last().inputs[i] matches Some(j) ==> j < after.last().id,
        after.last().id == after.len() - 1,
{
    lemma_name_inputs(generation, cells_before, before.len(), inputs, inputs.len() as int);
    lemma_named_before(generation, cells_before, before.len(), inputs, inputs.len() as int);
}

/// Every node that names an input is one of those counted so far.
proof fn lemma_named_before(
    generation: u32,
    cells: Map<usize, Meta>,
    count: nat,
    inputs: Seq<Tensor>,
    n: int,
)
    requires
        0 <= n <= inputs.len(),
        count + inputs.len() <= u32::MAX,
        forall|k: int| 0 <= k < inputs.len() ==> cells.contains_key((#[trigger] inputs[k]).cell),
        forall|c: usize| #[trigger]
            cells.contains_key(c) ==> (live_index(cells[c].node_id, generation) matches Some(j)
                ==> j < count),
    ensures
        ({
            let r = name_inputs(generation, cells, count, inputs, n);
            &&& forall|c: usize| #[trigger]
                cells.contains_key(c) ==> (live_index(r.cells[c].node_id, generation) matches Some(j)
                    ==> j < r.count)
            &&& forall|k: int| 0 <= k < n ==> ((#[trigger] r.ids[k]) matches Some(j) ==> j < r.count)
        }),
    decreases n,
{
    lemma_name_inputs(generation, cells, count, inputs, n);
    if n > 0 {
        lemma_named_before(generation, cells, count, inputs, n - 1);
        lemma_name_inputs(generation, cells, count, inputs, n - 1);
        let p = name_inputs(generation, cells, count, inputs, n - 1);
        let r = name_inputs(generation, cells, count, inputs, n);
        law_token_round_trip(generation, p.count as u32);
        assert(cells.contains_key(inputs[n - 1].cell));
        assert forall|k: int| 0 <= k < n implies ((#[trigger] r.ids[k]) matches Some(j) ==> j
            < r.count) by {
            if k < n - 1 {
                assert(r.ids[k] == p.ids[k]);
            }
        }
    }
}

/// After a reset, a tensor that was recorded before enters the tape as a new leaf, and gets a
/// token of the new generation.
pub proof fn law_reset_makes_leaves(
    generation: u32,
    index: u32,
    cells: Map<usize, Meta>,
    x: Tensor,
)
    requires
        cells.contains_key(x.cell),
        cells[x.cell].node_id == Some(pack_spec(generation, index)),
        cells[x.cell].requires_grad,
    ensures
        ({
            let next: u32 = if generation == u32::MAX {
                0
            } else {
                (generation + 1) as u32
            };
            let r = name_inputs(next, cells, 0, seq![x], 1);
            &&& r.ids == seq![Some(0u32)]
            &&& r.count == 1
            &&& r.cells[x.cell].node_id == Some(pack_spec(next, 0))
        }),
{
    let next: u32 = if generation == u32::MAX {
        0
    } else {
        (generation + 1) as u32
    };
    law_reset_invalidates(generation, index);
    reveal_with_fuel(name_inputs, 2);
    assert(name_inputs(next, cells, 0, seq![x], 1).ids =~= seq![Some(0u32)]);
}

} // verus!

//! The model, with its weights on a device.
use vstd::prelude::*;

use super::config::{fault_if, first, multiple, unfit, Config};
use super::dims::Dims;
use super::fitting::takes;
use super::layer::{layer_of, no_layer, rotated_layer, ticks, Layer, LayerW, Mixer};
use super::loader::{told, Loader};
use super::pass::{attending, Mem, Net};
use super::rotation::{
    check_inverse, check_names, find_signs, lemma_signs_for, lemma_signs_read, listed, misnamed,
    misnamed_inverse, no_signs, read_signs, signs_for, signs_in,
};
use super::state::{blank, State};
use super::tensors::{floats_of, no_floats, no_ternary, ternary_of};
use crate::device::Device;
use crate::gguf::Gguf;
use crate::text::{decimal, digits, join3, own, texts};

verus! {

/// The model, with its weights on a device, and the state of a sequence.
pub struct Model<'a, D: Device> {
    pub config: Config,
    pub device: D,
    pub dims: Dims,
    pub eps: u32,
    /// The embedding table, which is looked up on the CPU: it is large, and a
    /// token needs one row of it.
    pub table: &'a [u8],
    pub row: usize,
    pub layers: Vec<Layer<D>>,
    pub norm: D::Buffer,
    pub lm_head: D::Weight,
    /// The signs of the rotation, by the width of the activations they apply
    /// to.
    pub signs: Vec<(usize, D::Buffer)>,
    pub state: State<D>,
    /// Whether the weights fit the activations that they work on: whether the
    /// model can be run.
    pub fit: bool,
    pub fed: Ghost<Seq<u32>>,
    pub draft: Ghost<Seq<u32>>,
}

/// What is wrong with the weights of the first `i` layers.
pub open spec fn no_layers(g: &Gguf, c: &Config, i: int) -> Option<Seq<char>>
    decreases i,
{
    if i <= 0 {
        None
    } else {
        first(no_layers(g, c, i - 1), no_layer(g, c, i - 1))
    }
}

/// The weights of the first `i` layers that take rotated activations.
pub open spec fn rotated_upto(c: &Config, i: int) -> Seq<Seq<char>>
    decreases i,
{
    if i <= 0 {
        Seq::empty()
    } else {
        rotated_upto(c, i - 1) + rotated_layer(c, i - 1)
    }
}

/// How many tensors of the first `i` layers are counted off.
pub open spec fn ticks_upto(c: &Config, i: int) -> int
    decreases i,
{
    if i <= 0 {
        0
    } else {
        ticks_upto(c, i - 1) + ticks(c, i - 1)
    }
}

/// What is said where there are no signs for activations of a width.
pub open spec fn unsigned_text(width: int) -> Seq<char> {
    "no rotation signs for activations "@ + digits(width as nat) + " wide"@
}

/// A width of the activations that the model rotates for which there are no
/// signs.
pub open spec fn unsigned(g: &Gguf, width: int) -> Option<Seq<char>> {
    fault_if(signs_for(signs_in(g.meta_map()), width) is None, unsigned_text(width))
}

/// What is said of sizes that the machine cannot count.
pub open spec fn oversized() -> Seq<char> {
    "the model's sizes do not fit in memory"@
}

/// Why a model of an architecture cannot be loaded for sequences of `max_len`
/// tokens.
pub open spec fn unloadable(g: &Gguf, c: &Config, max_len: int) -> Option<Seq<char>> {
    first(
        fault_if(
            !c.countable(0) || g.packs().row(c.hidden as nat) > usize::MAX,
            oversized(),
        ),
        first(
            no_layers(g, c, c.layers as int),
            first(
                no_floats(g, "output_norm.weight"@),
                first(
                    no_ternary(g, "output.weight"@),
                    first(
                        misnamed(
                            g.meta_map(),
                            rotated_upto(c, c.layers as int).push("output.weight"@),
                        ),
                        first(
                            misnamed_inverse(g.meta_map()),
                            first(unturned(g, c), fault_if(!c.countable(max_len), oversized())),
                        ),
                    ),
                ),
            ),
        ),
    )
}

/// What is wrong with the signs of the rotation.
pub open spec fn unturned(g: &Gguf, c: &Config) -> Option<Seq<char>> {
    first(
        no_signs(g.meta_map()),
        first(
            unsigned(g, c.hidden as int),
            first(
                unsigned(g, c.v_dim()),
                first(
                    unsigned(g, c.q_dim()),
                    unsigned(g, c.intermediate as int),
                ),
            ),
        ),
    )
}

/// The embedding table, where the file has it.
pub open spec fn embeddings(g: &Gguf) -> Seq<u8> {
    match g.holds(g.tensor_map()["token_embd.weight"@]) {
        Ok(s) => s,
        Err(_) => Seq::empty(),
    }
}

/// The weights of a file, with the rotary table and the epsilon beside them.
pub open spec fn net_of(g: &Gguf, c: &Config, eps: u32, rope: Seq<u32>) -> Net {
    let signs = signs_in(g.meta_map());
    Net {
        layers: Seq::new(c.layers as nat, |i: int| layer_of(g, c, i)),
        norm: floats_of(g, "output_norm.weight"@),
        head: ternary_of(g, "output.weight"@),
        signs: signs_for(signs, c.hidden as int)->0,
        signs_q: signs_for(signs, c.q_dim())->0,
        signs_v: signs_for(signs, c.v_dim())->0,
        signs_ffn: signs_for(signs, c.intermediate as int)->0,
        rope,
        eps,
        table: embeddings(g),
        row: g.packs().row(c.hidden as nat),
    }
}

/// Layers' weights.
pub open spec fn weights<D: Device>(layers: Seq<Layer<D>>) -> Seq<LayerW> {
    Seq::new(layers.len(), |i: int| layers[i].w())
}

/// Whether a layer is of the kind of layer `i` of an architecture, and has the
/// cache or the state that is its own.
pub open spec fn placed<D: Device>(layer: Layer<D>, c: &Config, i: int) -> bool {
    &&& (layer.w().mixer is Attention) == c.attends(i)
    &&& layer.mixer matches Mixer::Attention(a) ==> a.cache == attending(c, i)
    &&& layer.mixer matches Mixer::Linear(l) ==> l.slot == i - attending(c, i)
}

/// Layers of full attention come one at a time.
pub proof fn lemma_attending(c: &Config, i: int, n: int)
    requires
        0 <= i <= n,
    ensures
        0 <= attending(c, i) <= attending(c, n),
        attending(c, n) - attending(c, i) <= n - i,
        attending(c, i) <= i,
    decreases n,
{
    if i < n {
        lemma_attending(c, i, n - 1);
    } else if n > 0 {
        lemma_attending(c, n - 1, n - 1);
    }
}

/// A tick for every tensor: as many as full attention has for each of its
/// layers, and as linear attention has for each of the others.
pub proof fn law_ticks_by_kind(c: &Config, i: int)
    requires
        0 <= i,
    ensures
        ticks_upto(c, i) == 11 * attending(c, i) + 12 * (i - attending(c, i)),
    decreases i,
{
    if i > 0 {
        law_ticks_by_kind(c, i - 1);
    }
}

/// A fault of the first layers stays one.
proof fn lemma_no_layers(g: &Gguf, c: &Config, i: int, n: int)
    requires
        i <= n,
        no_layers(g, c, i) is Some,
    ensures
        no_layers(g, c, n) == no_layers(g, c, i),
    decreases n - i,
{
    if i < n && n > 0 {
        lemma_no_layers(g, c, i, n - 1);
    }
}

impl Config {
    /// How many layers are full attention.
    fn attention_layers(&self) -> (n: usize)
        ensures
            n == attending(self, self.layers as int),
    {
        let mut n: usize = 0;
        let mut i: usize = 0;
        while i < self.layers
            invariant
                i <= self.layers,
                n <= i,
                n == attending(self, i as int),
            decreases self.layers - i,
        {
            if self.is_attention(i) {
                n = n + 1;
            }
            i = i + 1;
        }
        n
    }
}

impl<'a, D: Device> Model<'a, D> {
    /// The weights, and what else stays the same.
    pub open spec fn net(&self) -> Net {
        let signs = listed::<D>(self.signs@);
        Net {
            layers: weights(self.layers@),
            norm: D::data(&self.norm),
            head: D::matrix(&self.lm_head),
            signs: signs_for(signs, self.config.hidden as int)->0,
            signs_q: signs_for(signs, self.config.q_dim())->0,
            signs_v: signs_for(signs, self.config.v_dim())->0,
            signs_ffn: signs_for(signs, self.config.intermediate as int)->0,
            rope: D::data(&self.state.rope),
            eps: self.eps,
            table: self.table@,
            row: self.row as nat,
        }
    }

    /// What is kept of the sequence.
    pub open spec fn mem(&self) -> Mem {
        self.state.mem(&self.config)
    }

    /// The tokens of the sequence.
    pub open spec fn tokens(&self) -> Seq<u32> {
        self.fed@
    }

    /// The draft that was verified last.
    pub open spec fn drafted(&self) -> Seq<u32> {
        self.draft@
    }

    /// How long a sequence can be.
    pub open spec fn room(&self) -> nat {
        self.state.max_len as nat
    }

    /// Whether the weights fit the activations that they work on.
    pub open spec fn fits(&self) -> bool {
        let c = &self.config;
        &&& c.hidden > 0
        &&& forall|i: int| 0 <= i < c.layers ==> (#[trigger] self.layers@[i]).w().shaped(c)
        &&& D::data(&self.norm).len() == c.hidden
        &&& takes(D::matrix(&self.lm_head), c.hidden as int, c.vocab as int)
        &&& self.table@.len() >= c.vocab * self.row
    }

    /// Whether the parts that stay the same are those of the architecture.
    pub open spec fn assembled(&self) -> bool {
        let c = &self.config;
        let signs = listed::<D>(self.signs@);
        &&& c.countable(self.state.max_len as int)
        &&& self.dims.of(c)
        &&& self.layers@.len() == c.layers
        &&& forall|i: int| 0 <= i < c.layers ==> placed(#[trigger] self.layers@[i], c, i)
        &&& signs_for(signs, c.hidden as int) matches Some(s) && s.len() == c.hidden
        &&& signs_for(signs, c.q_dim()) matches Some(s) && s.len() == c.q_dim()
        &&& signs_for(signs, c.v_dim()) matches Some(s) && s.len() == c.v_dim()
        &&& signs_for(signs, c.intermediate as int) matches Some(s) && s.len() == c.intermediate
    }

    /// Whether the parts that stay the same are those of the architecture, and
    /// fit the activations that they work on.
    pub open spec fn built(&self) -> bool {
        self.assembled() && self.fits()
    }

    /// Whether all holds together but for what does not fit: what a model that
    /// is loaded is, whether or not it can be run.
    pub open spec fn loaded(&self) -> bool {
        &&& self.assembled()
        &&& self.state.wf(&self.config, self.caches(), self.slots())
        &&& self.fed@.len() + self.draft@.len() <= self.state.max_len
        &&& self.draft@.len() == self.state.verified
        &&& self.fit == self.fits()
    }

    /// Layers of full attention.
    pub open spec fn caches(&self) -> int {
        attending(&self.config, self.config.layers as int)
    }

    /// Layers of linear attention.
    pub open spec fn slots(&self) -> int {
        self.config.layers - attending(&self.config, self.config.layers as int)
    }

    /// Whether all holds together, and the model can be run.
    pub open spec fn wf(&self) -> bool {
        self.loaded() && self.fits()
    }
}

/// How many tensors a model has on the device.
pub open spec fn tensors(c: &Config) -> int {
    ticks_upto(c, c.layers as int) + 2
}

/// What the caller computes of the architecture with floating point: the bits
/// of the epsilon, and those of the rotary table.
pub struct Numbers {
    pub eps: u32,
    pub rope: Vec<u32>,
}

/// What is said of a rotary table that is not of the right size.
pub open spec fn miscounted() -> Seq<char> {
    "the rotary table does not fit the model"@
}

/// Whether an error says why a file cannot be loaded.
pub open spec fn refused<F: FnOnce(&Config, usize) -> Numbers>(
    g: &Gguf,
    block: int,
    max_len: usize,
    numbers: F,
    e: Seq<char>,
) -> bool {
    let fault = unfit(g.meta_map(), g.tensor_map(), block as nat);
    ||| fault == Some(e)
    ||| fault is None && exists|c: Config| #[trigger]
        c.described(g.meta_map(), g.tensor_map()) && match unloadable(g, &c, max_len as int) {
            Some(f) => e == f,
            None => e == miscounted() && exists|n: Numbers| #[trigger]
                call_ensures(numbers, (&c, max_len), n) && n.rope@.len() != max_len * c.rope_dim(),
        }
}

impl<'a, D: Device> Model<'a, D> {
    /// Uploads the layers, and counts those of full attention.
    fn load_layers<F: FnMut(u64, u64)>(l: &mut Loader<'_, 'a, D, F>, c: &Config, dims: &Dims) -> (r:
        Result<(Vec<Layer<D>>, usize), String>)
        requires
            old(l).wf(),
            old(l).done == 0,
            old(l).rotated@.len() == 0,
            old(l).fit,
            multiple(c.v_heads as int, c.k_heads as int),
            c.countable(0),
            c.layers <= u32::MAX,
            dims.of(c),
        ensures
            final(l).wf(),
            final(l).same(old(l)),
            match r {
                Ok((layers, caches)) => {
                    &&& no_layers(old(l).gguf, c, c.layers as int) is None
                    &&& layers@.len() == c.layers
                    &&& caches == attending(c, c.layers as int)
                    &&& weights(layers@) == Seq::new(
                        c.layers as nat,
                        |i: int| layer_of(old(l).gguf, c, i),
                    )
                    &&& forall|i: int| 0 <= i < c.layers ==> placed(#[trigger] layers@[i], c, i)
                    &&& final(l).fit == forall|i: int|
                        0 <= i < c.layers ==> (#[trigger] layers@[i]).w().shaped(c)
                    &&& texts(final(l).rotated@) == rotated_upto(c, c.layers as int)
                    &&& final(l).done == ticks_upto(c, c.layers as int)
                },
                Err(e) => no_layers(old(l).gguf, c, c.layers as int) == Some(e@),
            },
    {
        let mut layers: Vec<Layer<D>> = Vec::new();
        let mut caches: usize = 0;
        let mut i: usize = 0;
        assert(texts(l.rotated@) =~= Seq::empty());
        while i < c.layers
            invariant
                i <= c.layers <= u32::MAX,
                l.wf(),
                l.same(old(l)),
                multiple(c.v_heads as int, c.k_heads as int),
                c.countable(0),
                dims.of(c),
                no_layers(old(l).gguf, c, i as int) is None,
                layers@.len() == i,
                caches == attending(c, i as int),
                caches <= i,
                forall|j: int|
                    0 <= j < i ==> (#[trigger] layers@[j]).w() == layer_of(old(l).gguf, c, j)
                        && placed(layers@[j], c, j),
                l.fit == forall|j: int| 0 <= j < i ==> (#[trigger] layers@[j]).w().shaped(c),
                texts(l.rotated@) == rotated_upto(c, i as int),
                l.done == ticks_upto(c, i as int),
                l.done <= 12 * i,
            decreases c.layers - i,
        {
            let ghost before = layers@;
            let ghost fit = l.fit;
            match l.layer(c, dims, i, caches, i - caches) {
                Ok(layer) => {
                    let ghost one = layer.w().shaped(c);
                    layers.push(layer);
                    proof {
                        assert(layers@[i as int].w().shaped(c) == one);
                        assert forall|j: int| 0 <= j < i implies (#[trigger] layers@[j]).w().shaped(
                            c,
                        ) == before[j].w().shaped(c) by {}
                        if fit && one {
                            assert forall|j: int| 0 <= j < i + 1 implies (
                            #[trigger] layers@[j]).w().shaped(c) by {
                                if j < i {
                                    assert(before[j].w().shaped(c));
                                }
                            }
                        }
                        if !fit {
                            let j = choose|j: int| 0 <= j < i && !(#[trigger] before[j]).w().shaped(c);
                            assert(!layers@[j].w().shaped(c));
                        }
                    }
                    if c.is_attention(i) {
                        caches = caches + 1;
                    }
                },
                Err(e) => {
                    proof {
                        lemma_no_layers(old(l).gguf, c, i + 1, c.layers as int);
                    }
                    return Err(e);
                },
            }
            i = i + 1;
        }
        proof {
            assert(weights(layers@) =~= Seq::new(
                c.layers as nat,
                |i: int| layer_of(old(l).gguf, c, i),
            ));
        }
        Ok((layers, caches))
    }

    /// That there are signs for activations of a width.
    fn check_signs(signs: &Vec<(usize, D::Buffer)>, width: usize, g: Ghost<&Gguf>) -> (r: Result<
        (),
        String,
    >)
        requires
            listed::<D>(signs@) == signs_in(g@.meta_map()),
        ensures
            match r {
                Ok(_) => unsigned(g@, width as int) is None,
                Err(e) => unsigned(g@, width as int) == Some(e@),
            },
    {
        if find_signs::<D>(signs, width).is_some() {
            Ok(())
        } else {
            Err(
                join3(
                    "no rotation signs for activations ",
                    &decimal(width as u64),
                    " wide",
                ),
            )
        }
    }

    /// Uploads the signs of the rotation, having found them for every width
    /// that the model rotates.
    fn load_signs(g: &Gguf<'a>, c: &Config, dims: &Dims, d: &D) -> (r: Result<
        Vec<(usize, D::Buffer)>,
        String,
    >)
        requires
            g.wf(),
            dims.of(c),
        ensures
            match r {
                Ok(signs) => unturned(g, c) is None && listed::<D>(signs@) == signs_in(
                    g.meta_map(),
                ),
                Err(e) => unturned(g, c) == Some(e@),
            },
    {
        let signs = match read_signs(g, d) {
            Ok(signs) => signs,
            Err(e) => {
                return Err(e);
            },
        };
        match Self::check_signs(&signs, c.hidden, Ghost(g)) {
            Ok(_) => {},
            Err(e) => {
                return Err(e);
            },
        }
        match Self::check_signs(&signs, dims.v_dim, Ghost(g)) {
            Ok(_) => {},
            Err(e) => {
                return Err(e);
            },
        }
        match Self::check_signs(&signs, dims.q_dim, Ghost(g)) {
            Ok(_) => {},
            Err(e) => {
                return Err(e);
            },
        }
        match Self::check_signs(&signs, c.intermediate, Ghost(g)) {
            Ok(_) => Ok(signs),
            Err(e) => Err(e),
        }
    }

    /// The embedding table, where the file has it.
    fn find_table(g: &Gguf<'a>) -> (table: &'a [u8])
        requires
            g.wf(),
            g.tensor_map().contains_key("token_embd.weight"@),
        ensures
            table@ == embeddings(g),
    {
        match g.bytes("token_embd.weight") {
            Ok(table) => table,
            Err(_) => g.nothing(),
        }
    }

    /// Loads the model from its file, uploading its weights to `device`, whose
    /// rotation has blocks `block` wide, with state for sequences of up to
    /// `max_len` tokens, and reporting how many of its tensors are loaded, out
    /// of how many, as it goes. Weights that do not fit the activations are
    /// loaded too: such a model says so, and is not to be run.
    pub fn load<F: FnMut(u64, u64), N: FnOnce(&Config, usize) -> Numbers>(
        gguf: &Gguf<'a>,
        device: D,
        block: usize,
        max_len: usize,
        numbers: N,
        on_progress: F,
    ) -> (r: Result<Model<'a, D>, String>)
        requires
            gguf.wf(),
            forall|a: u64, b: u64| call_requires(on_progress, (a, b)),
            forall|c: &Config, n: usize| call_requires(numbers, (c, n)),
        ensures
            match r {
                Ok(m) => {
                    let c = &m.config;
                    &&& unfit(gguf.meta_map(), gguf.tensor_map(), block as nat) is None
                    &&& c.described(gguf.meta_map(), gguf.tensor_map())
                    &&& unloadable(gguf, c, max_len as int) is None
                    &&& m.loaded()
                    &&& m.device == device
                    &&& m.room() == max_len
                    &&& m.tokens() == Seq::<u32>::empty()
                    &&& m.drafted() == Seq::<u32>::empty()
                    &&& m.mem() == blank(c, m.caches() as nat, m.slots() as nat, max_len as int)
                    &&& m.net() == net_of(gguf, c, m.net().eps, m.net().rope)
                    &&& told(on_progress, tensors(c) as u64, tensors(c) as u64)
                    &&& exists|n: Numbers| #[trigger]
                        call_ensures(numbers, (c, max_len), n) && n.eps == m.net().eps && n.rope@
                            == m.net().rope
                },
                Err(e) => refused(gguf, block as int, max_len, numbers, e@),
            },
    {
        let config = match Config::load(gguf, block) {
            Ok(config) => config,
            Err(e) => {
                return Err(e);
            },
        };
        let c = &config;
        assert(c.described(gguf.meta_map(), gguf.tensor_map()));
        let dims = match c.dims() {
            Some(dims) => dims,
            None => {
                return Err(own("the model's sizes do not fit in memory"));
            },
        };
        let row: usize = match gguf.row_bytes(c.hidden) {
            Some(n) => n,
            None => {
                return Err(own("the model's sizes do not fit in memory"));
            },
        };
        let attention: usize = c.attention_layers();
        proof {
            lemma_attending(c, c.layers as int, c.layers as int);
            law_ticks_by_kind(c, c.layers as int);
            assert(0 * c.kv_dim() == 0) by (nonlinear_arith);
        }
        let total: u64 = attention as u64 * 11 + (c.layers - attention) as u64 * 12 + 2;
        let mut l = Loader {
            device: &device,
            gguf,
            done: 0,
            total,
            on_progress,
            rotated: Vec::new(),
            fit: true,
        };
        let (layers, caches) = match Self::load_layers(&mut l, c, &dims) {
            Ok(both) => both,
            Err(e) => {
                return Err(e);
            },
        };
        let norm = match l.norm("output_norm.weight", c.hidden) {
            Ok(b) => b,
            Err(e) => {
                return Err(e);
            },
        };
        let lm_head = match l.weight("output.weight", c.hidden, c.vocab) {
            Ok(w) => w,
            Err(e) => {
                return Err(e);
            },
        };
        // Every tensor has been counted off.
        assert(l.done == l.total == tensors(c));
        match check_names(gguf, l.rotated) {
            Ok(_) => {},
            Err(e) => {
                return Err(e);
            },
        }
        match check_inverse(gguf) {
            Ok(_) => {},
            Err(e) => {
                return Err(e);
            },
        }
        let signs = match Self::load_signs(gguf, c, &dims, &device) {
            Ok(signs) => signs,
            Err(e) => {
                return Err(e);
            },
        };
        if max_len.checked_mul(dims.kv_dim).is_none() {
            return Err(own("the model's sizes do not fit in memory"));
        }
        let given = numbers(c, max_len);
        let ghost known = given;
        assert(call_ensures(numbers, (c, max_len), known));
        let Numbers { eps, rope } = given;
        let len: usize = rope.len();
        let whole = match max_len.checked_mul(c.rot_dim / 2 * 2) {
            Some(n) => len == n,
            None => false,
        };
        if !whole {
            assert(known.rope@.len() != max_len * c.rope_dim());
            return Err(own("the rotary table does not fit the model"));
        }
        let state = State::new(
            c,
            &dims,
            &device,
            max_len,
            caches,
            c.layers - caches,
            rope.as_slice(),
        );
        let table = Self::find_table(gguf);
        let filled = match c.vocab.checked_mul(row) {
            Some(n) => table.len() >= n,
            None => false,
        };
        let fit = l.fit && c.hidden > 0 && filled;
        proof {
            let list = signs_in(gguf.meta_map());
            let widths = gguf.meta_map()["prism.hadamard.sign_widths"@]->Array_0;
            let values = gguf.meta_map()["prism.hadamard.sign_values"@]->Array_0;
            lemma_signs_read(widths, values, widths.len() as int);
            lemma_signs_for(list, c.hidden as int);
            lemma_signs_for(list, c.q_dim());
            lemma_signs_for(list, c.v_dim());
            lemma_signs_for(list, c.intermediate as int);
        }
        Ok(
            Model {
                config,
                device,
                dims,
                eps,
                table,
                row,
                layers,
                norm,
                lm_head,
                signs,
                state,
                fit,
                fed: Ghost(Seq::empty()),
                draft: Ghost(Seq::empty()),
            },
        )
    }
}

} // verus!

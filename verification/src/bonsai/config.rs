//! The architecture of the model.
use vstd::prelude::*;

use crate::device::CONV_KERNEL;
use crate::gguf::layout::Desc;
use crate::gguf::value::Val;
use crate::gguf::{Gguf, Number};
use crate::text::{join2, join3, own, same_text};

verus! {

/// The architecture, read from the file's metadata.
#[derive(Debug)]
pub struct Config {
    pub hidden: usize,
    pub intermediate: usize,
    pub layers: usize,
    /// Full attention: heads, key/value heads, their width, and how much of
    /// each head rotary position embeddings rotate.
    pub heads: usize,
    pub kv_heads: usize,
    pub head_dim: usize,
    pub rot_dim: usize,
    pub rope_theta: Number,
    /// Every this many layers, the last is full attention.
    pub full_attention_interval: usize,
    /// Linear attention: key heads, value heads, and the width of both.
    pub k_heads: usize,
    pub v_heads: usize,
    pub state_dim: usize,
    pub eps: Number,
    pub vocab: usize,
    /// Positions the model was trained for.
    pub context_length: usize,
}

/// The first of two faults.
pub open spec fn first(a: Option<Seq<char>>, b: Option<Seq<char>>) -> Option<Seq<char>> {
    if a is Some {
        a
    } else {
        b
    }
}

/// A fault, where something holds.
pub open spec fn fault_if(b: bool, text: Seq<char>) -> Option<Seq<char>> {
    if b {
        Some(text)
    } else {
        None
    }
}

/// Metadata by key.
pub type Meta = Map<Seq<char>, Val>;

/// What is wrong with the number of 32 bits under a key.
pub open spec fn no_u32(meta: Meta, key: Seq<char>) -> Option<Seq<char>> {
    if !meta.contains_key(key) {
        Some("missing metadata '"@ + key + "'"@)
    } else {
        match meta[key].integer() {
            None => Some("metadata '"@ + key + "' is not an integer"@),
            Some(n) => fault_if(
                n < 0 || n > u32::MAX,
                "out of range integral type conversion attempted"@,
            ),
        }
    }
}

/// The number of 32 bits under a key.
pub open spec fn u32_of(meta: Meta, key: Seq<char>) -> int {
    meta[key].integer()->0 as int
}

/// What is wrong with the number under a key.
pub open spec fn no_number(meta: Meta, key: Seq<char>) -> Option<Seq<char>> {
    if !meta.contains_key(key) {
        Some("missing metadata '"@ + key + "'"@)
    } else {
        fault_if(meta[key].number() is None, "metadata '"@ + key + "' is not a number"@)
    }
}

/// What is wrong with the text under a key.
pub open spec fn no_str(meta: Meta, key: Seq<char>) -> Option<Seq<char>> {
    if !meta.contains_key(key) {
        Some("missing metadata '"@ + key + "'"@)
    } else {
        fault_if(!(meta[key] is Str), "metadata '"@ + key + "' is not a string"@)
    }
}

/// What is wrong with a key that should say `want`.
pub open spec fn not_said(meta: Meta, key: Seq<char>, want: Seq<char>) -> Option<Seq<char>> {
    first(
        no_str(meta, key),
        fault_if(
            meta[key]->Str_0 != want,
            key + " is '"@ + meta[key]->Str_0 + "', not '"@ + want + "'"@,
        ),
    )
}

/// Whether one number is a multiple of another.
pub open spec fn multiple(a: int, b: int) -> bool {
    if b == 0 {
        a == 0
    } else {
        a % b == 0
    }
}

/// What is wrong with the embedding table's shape.
pub open spec fn no_vocab(tensors: Map<Seq<char>, Desc>) -> Option<Seq<char>> {
    if !tensors.contains_key("token_embd.weight"@) {
        Some("missing tensor '"@ + "token_embd.weight"@ + "'"@)
    } else {
        fault_if(
            tensors["token_embd.weight"@].dims.len() < 2,
            "tensor '"@ + "token_embd.weight"@ + "' has the wrong shape"@,
        )
    }
}

/// Why metadata describes no model that can be run, where the rotation's
/// blocks are `block` wide: of what is wrong, what is read first.
pub open spec fn unfit(meta: Meta, tensors: Map<Seq<char>, Desc>, block: nat) -> Option<Seq<char>> {
    first(
        no_str(meta, "general.architecture"@),
        first(
            fault_if(
                meta["general.architecture"@]->Str_0 != "qwen35"@,
                "the '"@ + meta["general.architecture"@]->Str_0
                    + "' architecture is not supported"@,
            ),
            first(unread(meta, tensors), first(disagreeing(meta), unrotated(meta, block))),
        ),
    )
}

/// What is wrong with the numbers of the architecture, one by one.
pub open spec fn unread(meta: Meta, tensors: Map<Seq<char>, Desc>) -> Option<Seq<char>> {
    first(
        no_u32(meta, "qwen35.embedding_length"@),
        first(
            no_u32(meta, "qwen35.feed_forward_length"@),
            first(
                no_u32(meta, "qwen35.block_count"@),
                first(
                    no_u32(meta, "qwen35.attention.head_count"@),
                    first(
                        no_u32(meta, "qwen35.attention.head_count_kv"@),
                        first(
                            no_u32(meta, "qwen35.attention.key_length"@),
                            first(
                                no_u32(meta, "qwen35.rope.dimension_count"@),
                                first(
                                    no_number(meta, "qwen35.rope.freq_base"@),
                                    unread_linear(meta, tensors),
                                ),
                            ),
                        ),
                    ),
                ),
            ),
        ),
    )
}

/// What is wrong with the numbers of linear attention and those after them.
pub open spec fn unread_linear(meta: Meta, tensors: Map<Seq<char>, Desc>) -> Option<Seq<char>> {
    first(
        no_u32(meta, "qwen35.full_attention_interval"@),
        first(
            no_u32(meta, "qwen35.ssm.group_count"@),
            first(
                no_u32(meta, "qwen35.ssm.time_step_rank"@),
                first(
                    no_u32(meta, "qwen35.ssm.state_size"@),
                    first(
                        no_number(meta, "qwen35.attention.layer_norm_rms_epsilon"@),
                        first(no_vocab(tensors), no_u32(meta, "qwen35.context_length"@)),
                    ),
                ),
            ),
        ),
    )
}

/// What the numbers of the architecture are not to each other.
pub open spec fn disagreeing(meta: Meta) -> Option<Seq<char>> {
    let v_heads = u32_of(meta, "qwen35.ssm.time_step_rank"@);
    first(
        no_u32(meta, "qwen35.ssm.conv_kernel"@),
        first(
            fault_if(
                u32_of(meta, "qwen35.ssm.conv_kernel"@) != CONV_KERNEL,
                "the convolution kernel is not four wide"@,
            ),
            first(
                no_u32(meta, "qwen35.ssm.inner_size"@),
                first(
                    fault_if(
                        u32_of(meta, "qwen35.ssm.inner_size"@) != v_heads * u32_of(
                            meta,
                            "qwen35.ssm.state_size"@,
                        ),
                        "the linear attention sizes disagree"@,
                    ),
                    fault_if(
                        !multiple(v_heads, u32_of(meta, "qwen35.ssm.group_count"@)),
                        "value heads are not a multiple of key heads"@,
                    ),
                ),
            ),
        ),
    )
}

/// What is wrong with how the weights are rotated.
pub open spec fn unrotated(meta: Meta, block: nat) -> Option<Seq<char>> {
    let other = "the weights are rotated in a way the model does not implement"@;
    first(
        not_said(
            meta,
            "prism.hadamard.transform"@,
            "normalized-sylvester-walsh-hadamard"@,
        ),
        first(
            not_said(meta, "prism.hadamard.axis"@, "input-last-dimension"@),
            first(
                not_said(meta, "prism.hadamard.sign_mode"@, "explicit"@),
                first(
                    no_u32(meta, "prism.hadamard.version"@),
                    first(
                        fault_if(u32_of(meta, "prism.hadamard.version"@) != 1, other),
                        first(
                            no_u32(meta, "prism.hadamard.block_size"@),
                            first(
                                fault_if(u32_of(meta, "prism.hadamard.block_size"@) != block, other),
                                fault_if(
                                    !(meta.contains_key("prism.hadamard.gdn_v_grouped"@)
                                        && meta["prism.hadamard.gdn_v_grouped"@] == Val::Bool(
                                        true,
                                    )),
                                    "the linear attention output projection is not in the checkpoint's head order"@,
                                ),
                            ),
                        ),
                    ),
                ),
            ),
        ),
    )
}

/// The number of 32 bits under a key, or what is wrong with it.
fn read_u32(gguf: &Gguf, key: &str) -> (r: Result<usize, String>)
    ensures
        match r {
            Ok(n) => no_u32(gguf.meta_map(), key@) is None && n == u32_of(gguf.meta_map(), key@),
            Err(e) => no_u32(gguf.meta_map(), key@) == Some(e@),
        },
{
    match gguf.u32(key) {
        Ok(n) => Ok(n as usize),
        Err(e) => Err(e.message()),
    }
}

/// The number under a key, or what is wrong with it.
fn read_number(gguf: &Gguf, key: &str) -> (r: Result<Number, String>)
    ensures
        match r {
            Ok(n) => no_number(gguf.meta_map(), key@) is None && gguf.meta_map()[key@].number()
                == Some(n),
            Err(e) => no_number(gguf.meta_map(), key@) == Some(e@),
        },
{
    match gguf.number(key) {
        Ok(n) => Ok(n),
        Err(e) => Err(e.message()),
    }
}

/// The text under a key, or what is wrong with it.
fn read_str<'b>(gguf: &'b Gguf, key: &str) -> (r: Result<&'b str, String>)
    ensures
        match r {
            Ok(s) => no_str(gguf.meta_map(), key@) is None && gguf.meta_map()[key@]->Str_0 == s@,
            Err(e) => no_str(gguf.meta_map(), key@) == Some(e@),
        },
{
    match gguf.str(key) {
        Ok(s) => Ok(s),
        Err(e) => Err(e.message()),
    }
}

/// That a key says what it should, or what it says instead.
fn said(gguf: &Gguf, key: &str, want: &str) -> (r: Result<(), String>)
    ensures
        match r {
            Ok(_) => not_said(gguf.meta_map(), key@, want@) is None,
            Err(e) => not_said(gguf.meta_map(), key@, want@) == Some(e@),
        },
{
    let got = match read_str(gguf, key) {
        Ok(got) => got,
        Err(e) => {
            return Err(e);
        },
    };
    if same_text(got, want) {
        Ok(())
    } else {
        let start = join3(key, " is '", got);
        let text = join2(&join3(&start, "', not '", want), "'");
        proof {
            assert(text@ =~= key@ + " is '"@ + got@ + "', not '"@ + want@ + "'"@);
        }
        Err(text)
    }
}

impl Config {
    /// Whether the numbers are those that metadata gives.
    pub open spec fn described(&self, meta: Meta, tensors: Map<Seq<char>, Desc>) -> bool {
        &&& self.hidden == u32_of(meta, "qwen35.embedding_length"@)
        &&& self.intermediate == u32_of(meta, "qwen35.feed_forward_length"@)
        &&& self.layers == u32_of(meta, "qwen35.block_count"@)
        &&& self.heads == u32_of(meta, "qwen35.attention.head_count"@)
        &&& self.kv_heads == u32_of(meta, "qwen35.attention.head_count_kv"@)
        &&& self.head_dim == u32_of(meta, "qwen35.attention.key_length"@)
        &&& self.rot_dim == u32_of(meta, "qwen35.rope.dimension_count"@)
        &&& meta["qwen35.rope.freq_base"@].number() == Some(self.rope_theta)
        &&& self.full_attention_interval == u32_of(meta, "qwen35.full_attention_interval"@)
        &&& self.k_heads == u32_of(meta, "qwen35.ssm.group_count"@)
        &&& self.v_heads == u32_of(meta, "qwen35.ssm.time_step_rank"@)
        &&& self.state_dim == u32_of(meta, "qwen35.ssm.state_size"@)
        &&& meta["qwen35.attention.layer_norm_rms_epsilon"@].number() == Some(self.eps)
        &&& self.vocab == tensors["token_embd.weight"@].dims[1]
        &&& self.context_length == u32_of(meta, "qwen35.context_length"@)
    }

    /// Whether the numbers are of the width they are read in.
    pub open spec fn narrow(&self) -> bool {
        &&& self.hidden <= u32::MAX
        &&& self.intermediate <= u32::MAX
        &&& self.layers <= u32::MAX
        &&& self.heads <= u32::MAX
        &&& self.kv_heads <= u32::MAX
        &&& self.head_dim <= u32::MAX
        &&& self.rot_dim <= u32::MAX
        &&& self.k_heads <= u32::MAX
        &&& self.v_heads <= u32::MAX
        &&& self.state_dim <= u32::MAX
    }

    /// Reads the architecture, where the blocks of the rotation that the
    /// device has are `block` wide.
    pub fn load(gguf: &Gguf, block: usize) -> (r: Result<Config, String>)
        ensures
            match r {
                Ok(c) => {
                    &&& unfit(gguf.meta_map(), gguf.tensor_map(), block as nat) is None
                    &&& c.described(gguf.meta_map(), gguf.tensor_map())
                    &&& c.narrow()
                    &&& multiple(c.v_heads as int, c.k_heads as int)
                },
                Err(e) => unfit(gguf.meta_map(), gguf.tensor_map(), block as nat) == Some(e@),
            },
    {
        let arch = match read_str(gguf, "general.architecture") {
            Ok(s) => s,
            Err(e) => {
                return Err(e);
            },
        };
        if !same_text(arch, "qwen35") {
            return Err(join3("the '", arch, "' architecture is not supported"));
        }
        let config = match Self::read(gguf) {
            Ok(config) => config,
            Err(e) => {
                return Err(e);
            },
        };
        match config.agrees(gguf) {
            Ok(_) => {},
            Err(e) => {
                return Err(e);
            },
        }
        match Self::rotated(gguf, block) {
            Ok(_) => Ok(config),
            Err(e) => Err(e),
        }
    }

    /// Reads the numbers of the architecture.
    fn read(gguf: &Gguf) -> (r: Result<Config, String>)
        ensures
            match r {
                Ok(c) => {
                    &&& unread(gguf.meta_map(), gguf.tensor_map()) is None
                    &&& c.described(gguf.meta_map(), gguf.tensor_map())
                    &&& c.narrow()
                },
                Err(e) => unread(gguf.meta_map(), gguf.tensor_map()) == Some(e@),
            },
    {
        let hidden: usize = match read_u32(gguf, "qwen35.embedding_length") {
            Ok(n) => n,
            Err(e) => {
                return Err(e);
            },
        };
        let intermediate: usize = match read_u32(gguf, "qwen35.feed_forward_length") {
            Ok(n) => n,
            Err(e) => {
                return Err(e);
            },
        };
        let layers: usize = match read_u32(gguf, "qwen35.block_count") {
            Ok(n) => n,
            Err(e) => {
                return Err(e);
            },
        };
        let heads: usize = match read_u32(gguf, "qwen35.attention.head_count") {
            Ok(n) => n,
            Err(e) => {
                return Err(e);
            },
        };
        let kv_heads: usize = match read_u32(gguf, "qwen35.attention.head_count_kv") {
            Ok(n) => n,
            Err(e) => {
                return Err(e);
            },
        };
        let head_dim: usize = match read_u32(gguf, "qwen35.attention.key_length") {
            Ok(n) => n,
            Err(e) => {
                return Err(e);
            },
        };
        let rot_dim: usize = match read_u32(gguf, "qwen35.rope.dimension_count") {
            Ok(n) => n,
            Err(e) => {
                return Err(e);
            },
        };
        let rope_theta = match read_number(gguf, "qwen35.rope.freq_base") {
            Ok(n) => n,
            Err(e) => {
                return Err(e);
            },
        };
        let full_attention_interval: usize = match read_u32(
            gguf,
            "qwen35.full_attention_interval",
        ) {
            Ok(n) => n,
            Err(e) => {
                return Err(e);
            },
        };
        let k_heads: usize = match read_u32(gguf, "qwen35.ssm.group_count") {
            Ok(n) => n,
            Err(e) => {
                return Err(e);
            },
        };
        let v_heads: usize = match read_u32(gguf, "qwen35.ssm.time_step_rank") {
            Ok(n) => n,
            Err(e) => {
                return Err(e);
            },
        };
        let state_dim: usize = match read_u32(gguf, "qwen35.ssm.state_size") {
            Ok(n) => n,
            Err(e) => {
                return Err(e);
            },
        };
        let eps = match read_number(gguf, "qwen35.attention.layer_norm_rms_epsilon") {
            Ok(n) => n,
            Err(e) => {
                return Err(e);
            },
        };
        let vocab: usize = match gguf.info("token_embd.weight") {
            Ok(info) => if info.dims.len() < 2 {
                return Err(join3("tensor '", "token_embd.weight", "' has the wrong shape"));
            } else {
                info.dims[1]
            },
            Err(e) => {
                return Err(e.message());
            },
        };
        let context_length: usize = match read_u32(gguf, "qwen35.context_length") {
            Ok(n) => n,
            Err(e) => {
                return Err(e);
            },
        };
        Ok(
            Config {
                hidden,
                intermediate,
                layers,
                heads,
                kv_heads,
                head_dim,
                rot_dim,
                rope_theta,
                full_attention_interval,
                k_heads,
                v_heads,
                state_dim,
                eps,
                vocab,
                context_length,
            },
        )
    }

    /// That the numbers are to each other what they should be.
    fn agrees(&self, gguf: &Gguf) -> (r: Result<(), String>)
        requires
            self.described(gguf.meta_map(), gguf.tensor_map()),
            self.narrow(),
        ensures
            match r {
                Ok(_) => disagreeing(gguf.meta_map()) is None,
                Err(e) => disagreeing(gguf.meta_map()) == Some(e@),
            },
    {
        let kernel: usize = match read_u32(gguf, "qwen35.ssm.conv_kernel") {
            Ok(n) => n,
            Err(e) => {
                return Err(e);
            },
        };
        if kernel != CONV_KERNEL {
            return Err(own("the convolution kernel is not four wide"));
        }
        let inner: usize = match read_u32(gguf, "qwen35.ssm.inner_size") {
            Ok(n) => n,
            Err(e) => {
                return Err(e);
            },
        };
        proof {
            let (a, b) = (self.v_heads as int, self.state_dim as int);
            assert(0 <= a * b <= 0xffff_ffff * 0xffff_ffff) by (nonlinear_arith)
                requires
                    0 <= a <= 0xffff_ffff,
                    0 <= b <= 0xffff_ffff,
            ;
        }
        if inner as u64 != self.v_heads as u64 * self.state_dim as u64 {
            return Err(own("the linear attention sizes disagree"));
        }
        let divides = if self.k_heads == 0 {
            self.v_heads == 0
        } else {
            self.v_heads % self.k_heads == 0
        };
        if !divides {
            return Err(own("value heads are not a multiple of key heads"));
        }
        Ok(())
    }

    /// That the weights are rotated as the model has them.
    fn rotated(gguf: &Gguf, block: usize) -> (r: Result<(), String>)
        ensures
            match r {
                Ok(_) => unrotated(gguf.meta_map(), block as nat) is None,
                Err(e) => unrotated(gguf.meta_map(), block as nat) == Some(e@),
            },
    {
        match said(
            gguf,
            "prism.hadamard.transform",
            "normalized-sylvester-walsh-hadamard",
        ) {
            Ok(_) => {},
            Err(e) => {
                return Err(e);
            },
        }
        match said(gguf, "prism.hadamard.axis", "input-last-dimension") {
            Ok(_) => {},
            Err(e) => {
                return Err(e);
            },
        }
        match said(gguf, "prism.hadamard.sign_mode", "explicit") {
            Ok(_) => {},
            Err(e) => {
                return Err(e);
            },
        }
        let version: usize = match read_u32(gguf, "prism.hadamard.version") {
            Ok(n) => n,
            Err(e) => {
                return Err(e);
            },
        };
        if version != 1 {
            return Err(own("the weights are rotated in a way the model does not implement"));
        }
        let size: usize = match read_u32(gguf, "prism.hadamard.block_size") {
            Ok(n) => n,
            Err(e) => {
                return Err(e);
            },
        };
        if size != block {
            return Err(own("the weights are rotated in a way the model does not implement"));
        }
        let grouped = match gguf.get("prism.hadamard.gdn_v_grouped") {
            Some(v) => match v.as_bool() {
                Some(b) => b,
                None => false,
            },
            None => false,
        };
        if grouped {
            Ok(())
        } else {
            Err(
                own(
                    "the linear attention output projection is not in the checkpoint's head order",
                ),
            )
        }
    }

    /// Whether the layer is full attention rather than linear.
    pub open spec fn attends(&self, layer: int) -> bool {
        multiple(layer + 1, self.full_attention_interval as int)
    }

    /// Whether the layer is full attention rather than linear.
    pub fn is_attention(&self, layer: usize) -> (r: bool)
        requires
            layer < usize::MAX,
        ensures
            r == self.attends(layer as int),
    {
        if self.full_attention_interval == 0 {
            false
        } else {
            (layer + 1) % self.full_attention_interval == 0
        }
    }
}

} // verus!

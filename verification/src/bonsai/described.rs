//! What the model takes from the file's metadata: its sizes, which models it
//! can be, and the signs of the rotation.
use vstd::prelude::*;

use super::config::{unfit, Config, Meta};
use super::rotation::{
    misnamed, no_signs, sign_of, signs_for, signs_in, signs_upto, strings, SignList,
};
use crate::gguf::layout::Desc;
use crate::gguf::value::Val;
use crate::gguf::Number;

verus! {

/// Whether a key stands for a number of 32 bits.
pub open spec fn counts(meta: Meta, key: Seq<char>, n: int) -> bool {
    &&& meta.contains_key(key)
    &&& meta[key].integer() matches Some(v) && v == n
    &&& 0 <= n <= u32::MAX
}

/// Whether a key stands for some number of 32 bits.
pub open spec fn counted(meta: Meta, key: Seq<char>) -> bool {
    meta.contains_key(key) && meta[key].integer() is Some && 0 <= meta[key].integer()->0
        <= u32::MAX
}

/// Whether a key stands for a text.
pub open spec fn reads(meta: Meta, key: Seq<char>, text: Seq<char>) -> bool {
    meta.contains_key(key) && meta[key] == Val::Str(text)
}

/// Whether a key stands for a number of whichever kind.
pub open spec fn numbers(meta: Meta, key: Seq<char>) -> bool {
    meta.contains_key(key) && meta[key].number() is Some
}

/// Each size of a model is the number under its own key, and the vocabulary is
/// as large as the embedding table has rows.
pub proof fn law_sizes_go_by_their_keys(
    c: &Config,
    meta: Meta,
    tensors: Map<Seq<char>, Desc>,
    block: nat,
)
    requires
        unfit(meta, tensors, block) is None,
        c.described(meta, tensors),
    ensures
        counts(meta, "qwen35.embedding_length"@, c.hidden as int),
        counts(meta, "qwen35.feed_forward_length"@, c.intermediate as int),
        counts(meta, "qwen35.block_count"@, c.layers as int),
        counts(meta, "qwen35.attention.head_count"@, c.heads as int),
        counts(meta, "qwen35.attention.head_count_kv"@, c.kv_heads as int),
        counts(meta, "qwen35.attention.key_length"@, c.head_dim as int),
        counts(meta, "qwen35.rope.dimension_count"@, c.rot_dim as int),
        counts(meta, "qwen35.full_attention_interval"@, c.full_attention_interval as int),
        counts(meta, "qwen35.ssm.group_count"@, c.k_heads as int),
        counts(meta, "qwen35.ssm.time_step_rank"@, c.v_heads as int),
        counts(meta, "qwen35.ssm.state_size"@, c.state_dim as int),
        counts(meta, "qwen35.context_length"@, c.context_length as int),
        meta["qwen35.rope.freq_base"@].number() == Some(c.rope_theta),
        meta["qwen35.attention.layer_norm_rms_epsilon"@].number() == Some(c.eps),
        tensors.contains_key("token_embd.weight"@),
        c.vocab == tensors["token_embd.weight"@].dims[1],
{
}

/// Whether metadata has what a model is made from.
pub open spec fn complete(meta: Meta, tensors: Map<Seq<char>, Desc>) -> bool {
    &&& counted(meta, "qwen35.embedding_length"@)
    &&& counted(meta, "qwen35.feed_forward_length"@)
    &&& counted(meta, "qwen35.block_count"@)
    &&& counted(meta, "qwen35.attention.head_count"@)
    &&& counted(meta, "qwen35.attention.head_count_kv"@)
    &&& counted(meta, "qwen35.attention.key_length"@)
    &&& counted(meta, "qwen35.rope.dimension_count"@)
    &&& numbers(meta, "qwen35.rope.freq_base"@)
    &&& counted(meta, "qwen35.full_attention_interval"@)
    &&& counted(meta, "qwen35.ssm.group_count"@)
    &&& counted(meta, "qwen35.ssm.time_step_rank"@)
    &&& counted(meta, "qwen35.ssm.state_size"@)
    &&& counted(meta, "qwen35.ssm.inner_size"@)
    &&& numbers(meta, "qwen35.attention.layer_norm_rms_epsilon"@)
    &&& counted(meta, "qwen35.context_length"@)
    &&& tensors.contains_key("token_embd.weight"@)
    &&& tensors["token_embd.weight"@].dims.len() >= 2
}

/// Whether the weights are rotated as the model has it: by a normalized
/// Walsh-Hadamard transform over blocks of the device's width along the
/// inputs, with signs that the file lists, and with the values of linear
/// attention grouped by key head.
pub open spec fn turned(meta: Meta, block: nat) -> bool {
    &&& reads(meta, "prism.hadamard.transform"@, "normalized-sylvester-walsh-hadamard"@)
    &&& reads(meta, "prism.hadamard.axis"@, "input-last-dimension"@)
    &&& reads(meta, "prism.hadamard.sign_mode"@, "explicit"@)
    &&& counts(meta, "prism.hadamard.version"@, 1)
    &&& counts(meta, "prism.hadamard.block_size"@, block as int)
    &&& meta.contains_key("prism.hadamard.gdn_v_grouped"@)
    &&& meta["prism.hadamard.gdn_v_grouped"@] == Val::Bool(true)
}

/// The models that can be run are those of the one architecture whose numbers
/// are all there, whose convolution is four wide, whose value heads make up
/// the inner size and are shared out evenly among the key heads, and whose
/// weights are rotated as the model has it; no others are.
pub proof fn law_such_models_are_run(
    meta: Meta,
    tensors: Map<Seq<char>, Desc>,
    block: nat,
    k: int,
    v: int,
    dim: int,
)
    requires
        complete(meta, tensors) ==> {
            &&& counts(meta, "qwen35.ssm.group_count"@, k)
            &&& counts(meta, "qwen35.ssm.time_step_rank"@, v)
            &&& counts(meta, "qwen35.ssm.state_size"@, dim)
        },
    ensures
        unfit(meta, tensors, block) is None <==> {
            &&& reads(meta, "general.architecture"@, "qwen35"@)
            &&& complete(meta, tensors)
            &&& counts(meta, "qwen35.ssm.conv_kernel"@, 4)
            &&& counts(meta, "qwen35.ssm.inner_size"@, v * dim)
            &&& if k == 0 {
                v == 0
            } else {
                v % k == 0
            }
            &&& turned(meta, block)
        },
{
}

/// The first full attention layer is the last of the interval, and from then
/// on each interval has one.
pub proof fn law_attention_comes_every_interval(c: &Config, layer: int)
    requires
        c.full_attention_interval > 0,
        layer >= 0,
    ensures
        layer < c.full_attention_interval ==> (c.attends(layer) <==> layer
            == c.full_attention_interval - 1),
        c.attends(layer + c.full_attention_interval) == c.attends(layer),
{
    let n = c.full_attention_interval as int;
    vstd::arithmetic::div_mod::lemma_mod_add_multiples_vanish(layer + 1, n);
    assert(n + (layer + 1) == layer + n + 1);
    if layer < n {
        if layer + 1 == n {
            vstd::arithmetic::div_mod::lemma_mod_self_0(n);
        } else {
            vstd::arithmetic::div_mod::lemma_small_mod((layer + 1) as nat, n as nat);
        }
    }
}

/// A sign is the bits of one or of minus one, whichever its value is.
pub proof fn law_signs_are_ones(v: Val)
    ensures
        sign_of(v) matches Some(s) ==> s == 0x3f80_0000 || s == 0xbf80_0000,
        v matches Val::F32(b) ==> (sign_of(v) == Some(b) <==> b == 0x3f80_0000 || b
            == 0xbf80_0000),
        (v.number() matches Some(Number::Int(n)) && n == 1) ==> sign_of(v) == Some(0x3f80_0000u32),
        (v.number() matches Some(Number::Int(n)) && n == -1) ==> sign_of(v) == Some(0xbf80_0000u32),
        v.number() is None ==> sign_of(v) is None,
{
}

/// How many signs stand before those of the list's item `k`.
pub open spec fn signs_before(list: SignList, k: int) -> int
    decreases k,
{
    if k <= 0 {
        0
    } else {
        signs_before(list, k - 1) + list[k - 1].0
    }
}

/// The signs of the first items depend on those items alone.
proof fn lemma_signs_before(a: SignList, b: SignList, k: int)
    requires
        k <= a.len(),
        k <= b.len(),
        forall|i: int| 0 <= i < k ==> a[i] == b[i],
    ensures
        signs_before(a, k) == signs_before(b, k),
    decreases k,
{
    if k > 0 {
        lemma_signs_before(a, b, k - 1);
    }
}

/// The signs of the first widths.
proof fn lemma_signs_upto(widths: Seq<Val>, values: Seq<Val>, k: int)
    requires
        0 <= k <= widths.len(),
        signs_upto(widths, values, k) is Ok,
    ensures
        ({
            let (list, at) = signs_upto(widths, values, k)->Ok_0;
            &&& list.len() == k
            &&& at == signs_before(list, k)
            &&& 0 <= at <= values.len()
            &&& forall|j: int|
                #![trigger list[j]]
                #![trigger widths[j]]
                0 <= j < k ==> {
                    &&& widths[j].integer() is Some
                    &&& widths[j].integer()->0 == list[j].0
                    &&& list[j].1.len() == list[j].0
                    &&& 0 <= signs_before(list, j)
                    &&& signs_before(list, j) + list[j].0 <= at
                }
            &&& forall|j: int, i: int|
                0 <= j < k && 0 <= i < list[j].0 ==> sign_of(
                    values[signs_before(list, j) + i],
                ) == Some(#[trigger] list[j].1[i])
        }),
    decreases k,
{
    if k > 0 {
        lemma_signs_upto(widths, values, k - 1);
        let (old_list, old_at) = signs_upto(widths, values, k - 1)->Ok_0;
        let (list, at) = signs_upto(widths, values, k)->Ok_0;
        assert(list.drop_last() =~= old_list);
        assert forall|j: int| 0 <= j < k implies signs_before(list, j) == signs_before(
            old_list,
            j,
        ) && (j < k - 1 ==> list[j] == old_list[j]) by {
            lemma_signs_before(list, old_list, j);
        }
        let w = widths[k - 1].integer()->0;
        assert(list[k - 1].0 == w && list[k - 1].1.len() == w && at == old_at + w);
        assert(signs_before(list, k - 1) == old_at);
        assert(signs_before(list, k) == at);
        assert forall|j: int|
            #![trigger list[j]]
            #![trigger widths[j]]
            0 <= j < k implies {
            &&& widths[j].integer() is Some
            &&& widths[j].integer()->0 == list[j].0
            &&& list[j].1.len() == list[j].0
            &&& 0 <= signs_before(list, j)
            &&& signs_before(list, j) + list[j].0 <= at
        } by {
            if j < k - 1 {
                assert(list[j] == old_list[j]);
            }
        }
        assert forall|j: int, i: int| 0 <= j < k && 0 <= i < list[j].0 implies sign_of(
            values[signs_before(list, j) + i],
        ) == Some(#[trigger] list[j].1[i]) by {
            if j < k - 1 {
                assert(old_list[j].1[i] == list[j].1[i]);
            } else {
                assert(sign_of(values[old_at + i]) is Some);
            }
        }
    }
}

/// The signs are the file's, in its order: for each width that it lists as many
/// as the width says, which stand behind those of the widths before it.
pub proof fn law_signs_stand_by_width(meta: Meta, k: int, i: int)
    requires
        no_signs(meta) is None,
        0 <= k < meta["prism.hadamard.sign_widths"@]->Array_0.len(),
        0 <= i < signs_in(meta)[k].0,
    ensures
        ({
            let widths = meta["prism.hadamard.sign_widths"@]->Array_0;
            let values = meta["prism.hadamard.sign_values"@]->Array_0;
            let list = signs_in(meta);
            &&& list.len() == widths.len()
            &&& widths[k].integer() matches Some(w) && w == list[k].0
            &&& list[k].1.len() == list[k].0
            &&& 0 <= signs_before(list, k) + i < values.len()
            &&& sign_of(values[signs_before(list, k) + i]) == Some(list[k].1[i])
        }),
{
    let widths = meta["prism.hadamard.sign_widths"@]->Array_0;
    let values = meta["prism.hadamard.sign_values"@]->Array_0;
    lemma_signs_upto(widths, values, widths.len() as int);
    assert(signs_in(meta)[k].1[i] == signs_in(meta)[k].1[i]);
}

/// The signs for a width are the first that are as many, and there are none
/// where none are.
pub proof fn law_signs_are_found_by_width(list: SignList, width: int)
    ensures
        signs_for(list, width) matches Some(s) ==> exists|j: int|
            0 <= j < list.len() && (#[trigger] list[j]) == (width, s) && forall|i: int|
                0 <= i < j ==> (#[trigger] list[i]).0 != width,
        signs_for(list, width) is None ==> forall|j: int|
            0 <= j < list.len() ==> (#[trigger] list[j]).0 != width,
    decreases list.len(),
{
    if list.len() > 0 {
        if list[0].0 == width {
            assert(list[0] == (width, list[0].1));
        } else {
            let rest = list.drop_first();
            law_signs_are_found_by_width(rest, width);
            if let Some(s) = signs_for(rest, width) {
                let j = choose|j: int|
                    0 <= j < rest.len() && (#[trigger] rest[j]) == (width, s) && forall|i: int|
                        0 <= i < j ==> (#[trigger] rest[i]).0 != width;
                assert(list[j + 1] == (width, s));
                assert forall|i: int| 0 <= i < j + 1 implies (#[trigger] list[i]).0 != width by {
                    if i > 0 {
                        assert(rest[i - 1] == list[i]);
                    }
                }
            } else {
                assert forall|j: int| 0 <= j < list.len() implies (#[trigger] list[j]).0
                    != width by {
                    if j > 0 {
                        assert(rest[j - 1] == list[j]);
                    }
                }
            }
        }
    }
}

/// The texts among values are those that are among them.
proof fn lemma_strings(values: Seq<Val>, name: Seq<char>)
    ensures
        strings(values).contains(name) <==> values.contains(Val::Str(name)),
    decreases values.len(),
{
    if values.len() > 0 {
        let front = values.drop_last();
        lemma_strings(front, name);
        let last = values.last();
        if values.contains(Val::Str(name)) {
            let i = choose|i: int| 0 <= i < values.len() && values[i] == Val::Str(name);
            if i < front.len() {
                assert(front[i] == Val::Str(name));
                let j = choose|j: int|
                    0 <= j < strings(front).len() && strings(front)[j] == name;
                assert(strings(values)[j] == name);
            } else {
                assert(strings(values).last() == name);
            }
        }
        if strings(values).contains(name) {
            let j = choose|j: int| 0 <= j < strings(values).len() && strings(values)[j] == name;
            if j < strings(front).len() {
                assert(strings(front)[j] == name);
                let i = choose|i: int| 0 <= i < front.len() && front[i] == Val::Str(name);
                assert(values[i] == Val::Str(name));
            } else {
                assert(values[values.len() - 1] == Val::Str(name));
            }
        }
    }
}

/// Where the names of the rotated weights are right, the file lists a name if
/// and only if the model has that weight rotated.
pub proof fn law_rotated_weights_are_those_listed(
    meta: Meta,
    rotated: Seq<Seq<char>>,
    name: Seq<char>,
)
    requires
        misnamed(meta, rotated) is None,
    ensures
        meta.contains_key("prism.hadamard.weight_names"@),
        meta["prism.hadamard.weight_names"@] is Array,
        meta["prism.hadamard.weight_names"@]->Array_0.contains(Val::Str(name))
            <==> rotated.contains(name),
{
    let listed = meta["prism.hadamard.weight_names"@]->Array_0;
    lemma_strings(listed, name);
    vstd::seq_lib::to_multiset_contains(strings(listed), name);
    vstd::seq_lib::to_multiset_contains(rotated, name);
    assert(strings(listed).to_multiset() == rotated.to_multiset());
}

} // verus!

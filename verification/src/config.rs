//! Model configurations and the values that stand in where a setting is absent.

use vstd::prelude::*;

use crate::ieee::scalar::Double;

verus! {

/// Activation function kind for residual blocks and FFNs.
#[derive(Debug, Clone, Copy, PartialEq, Eq, Structural)]
pub enum Activation {
    Relu,
    Swish,
    Silu,
    /// No activation.
    Off,
}

impl Default for Activation {
    fn default() -> (r: Self)
        ensures
            r == Activation::Relu,
    {
        Activation::Relu
    }
}

/// Normalization kind.
#[derive(Debug, Clone, Copy, PartialEq, Eq, Structural)]
pub enum NormType {
    Rms,
    /// No normalization.
    Off,
}

impl Default for NormType {
    fn default() -> (r: Self)
        ensures
            r == NormType::Rms,
    {
        NormType::Rms
    }
}

/// Configuration for a Residual Block.
#[derive(Debug, Clone)]
pub struct ResidualBlockConfig {
    pub hidden_dims: usize,
    pub output_dims: usize,
    pub use_bias: bool,
    pub activation: Activation,
    pub dropout: Double,
    pub identity_skip: bool,
    pub prenorm: NormType,
}

pub fn default_hidden_dims() -> (r: usize)
    ensures
        r == 1280,
{
    1280
}

impl ResidualBlockConfig {
    /// The configuration in which nothing was set.
    pub open spec fn is_default(self) -> bool {
        &&& self.hidden_dims == 1280
        &&& self.output_dims == 1280
        &&& !self.use_bias
        &&& self.activation == Activation::Relu
        &&& self.dropout == Double::zero()
        &&& !self.identity_skip
        &&& self.prenorm == NormType::Off
    }
}

impl Default for ResidualBlockConfig {
    fn default() -> (r: Self)
        ensures
            r.is_default(),
    {
        ResidualBlockConfig {
            hidden_dims: 1280,
            output_dims: 1280,
            use_bias: false,
            activation: Activation::Relu,
            dropout: Double::zero(),
            identity_skip: false,
            prenorm: NormType::Off,
        }
    }
}

/// Configuration for a Transformer layer.
#[derive(Debug, Clone)]
pub struct TransformerConfig {
    pub model_dims: usize,
    pub hidden_dims: usize,
    pub num_heads: usize,
    pub attention_norm: NormType,
    pub feedforward_norm: NormType,
    pub qk_norm: NormType,
    pub v_norm: NormType,
    pub use_bias: bool,
    pub use_rope_seq: bool,
    pub use_rope_var: bool,
    pub ff_activation: Activation,
    pub deterministic: bool,
    pub causal_attention: bool,
    pub debug_no_masking: bool,
    pub training: bool,
    pub use_memory_efficient_attention: bool,
    pub paired_token_skip_second: bool,
    pub max_variates: usize,
    pub use_sdpa: bool,
}

pub fn default_num_heads() -> (r: usize)
    ensures
        r == 16,
{
    16
}

pub fn default_max_variates() -> (r: usize)
    ensures
        r == 32,
{
    32
}

pub fn default_true() -> (r: bool)
    ensures
        r,
{
    true
}

impl TransformerConfig {
    /// The configuration in which nothing was set.
    pub open spec fn is_default(self) -> bool {
        &&& self.model_dims == 1280
        &&& self.hidden_dims == 1280
        &&& self.num_heads == 16
        &&& self.attention_norm == NormType::Rms
        &&& self.feedforward_norm == NormType::Rms
        &&& self.qk_norm == NormType::Rms
        &&& self.v_norm == NormType::Off
        &&& !self.use_bias
        &&& self.use_rope_seq
        &&& !self.use_rope_var
        &&& self.ff_activation == Activation::Relu
        &&& self.deterministic
        &&& self.causal_attention
        &&& !self.debug_no_masking
        &&& self.training
        &&& self.use_memory_efficient_attention
        &&& !self.paired_token_skip_second
        &&& self.max_variates == 32
        &&& self.use_sdpa
    }
}

impl Default for TransformerConfig {
    fn default() -> (r: Self)
        ensures
            r.is_default(),
    {
        TransformerConfig {
            model_dims: 1280,
            hidden_dims: 1280,
            num_heads: 16,
            attention_norm: NormType::Rms,
            feedforward_norm: NormType::Rms,
            qk_norm: NormType::Rms,
            v_norm: NormType::Off,
            use_bias: false,
            use_rope_seq: true,
            use_rope_var: false,
            ff_activation: Activation::Relu,
            deterministic: true,
            causal_attention: true,
            debug_no_masking: false,
            training: true,
            use_memory_efficient_attention: true,
            paired_token_skip_second: false,
            max_variates: 32,
            use_sdpa: true,
        }
    }
}

/// Configuration for stacked transformer layers.
#[derive(Debug, Clone)]
pub struct StackedTransformersConfig {
    pub num_layers: usize,
    pub transformer: TransformerConfig,
    pub use_remat: bool,
}

pub fn default_num_layers() -> (r: usize)
    ensures
        r == 20,
{
    20
}

impl StackedTransformersConfig {
    /// The configuration in which nothing was set.
    pub open spec fn is_default(self) -> bool {
        &&& self.num_layers == 20
        &&& self.transformer.is_default()
        &&& self.use_remat
    }
}

impl Default for StackedTransformersConfig {
    fn default() -> (r: Self)
        ensures
            r.is_default(),
    {
        StackedTransformersConfig {
            num_layers: 20,
            transformer: TransformerConfig::default(),
            use_remat: true,
        }
    }
}

/// Configuration for the TimesFM 3.0 model.
#[derive(Debug, Clone)]
pub struct TimesFM3Config {
    pub input_patch_len: usize,
    pub output_patch_len: usize,
    pub quantiles: Vec<Double>,
    pub residual_block_config: ResidualBlockConfig,
    pub transformer_config: StackedTransformersConfig,
    pub use_variate_attention: bool,
    pub value_clip: Double,
    pub use_stitching: bool,
    pub use_linear_detrending: bool,
    pub linear_detrending_threshold: Double,
    pub use_iterative_cpm_revin: bool,
    pub use_frozen_running_stats: bool,
    pub input_transform: String,
}

pub fn default_input_patch_len() -> (r: usize)
    ensures
        r == 32,
{
    32
}

pub fn default_output_patch_len() -> (r: usize)
    ensures
        r == 64,
{
    64
}

/// The deciles from one tenth to nine tenths.
pub open spec fn deciles() -> Seq<Double> {
    seq![
        Double { bits: 0x3fb9_9999_9999_999a },
        Double { bits: 0x3fc9_9999_9999_999a },
        Double { bits: 0x3fd3_3333_3333_3333 },
        Double { bits: 0x3fd9_9999_9999_999a },
        Double { bits: 0x3fe0_0000_0000_0000 },
        Double { bits: 0x3fe3_3333_3333_3333 },
        Double { bits: 0x3fe6_6666_6666_6666 },
        Double { bits: 0x3fe9_9999_9999_999a },
        Double { bits: 0x3fec_cccc_cccc_cccd },
    ]
}

/// The deciles from one tenth to nine tenths.
pub fn default_quantiles() -> (r: Vec<Double>)
    ensures
        r@ == deciles(),
{
    let r = vec![
        Double { bits: 0x3fb9_9999_9999_999a },
        Double { bits: 0x3fc9_9999_9999_999a },
        Double { bits: 0x3fd3_3333_3333_3333 },
        Double { bits: 0x3fd9_9999_9999_999a },
        Double { bits: 0x3fe0_0000_0000_0000 },
        Double { bits: 0x3fe3_3333_3333_3333 },
        Double { bits: 0x3fe6_6666_6666_6666 },
        Double { bits: 0x3fe9_9999_9999_999a },
        Double { bits: 0x3fec_cccc_cccc_cccd },
    ];
    assert(r@ =~= deciles());
    r
}

/// Ten to the twentieth.
pub fn default_value_clip() -> (r: Double)
    ensures
        r.bits == 0x4415_af1d_78b5_8c40,
{
    Double { bits: 0x4415_af1d_78b5_8c40 }
}

/// One half.
pub fn default_linear_detrending_threshold() -> (r: Double)
    ensures
        r.bits == 0x3fe0_0000_0000_0000,
{
    Double { bits: 0x3fe0_0000_0000_0000 }
}

pub fn default_input_transform() -> (r: String)
    ensures
        r@ == "identity"@,
{
    "identity".to_owned()
}

impl TimesFM3Config {
    /// The configuration in which nothing was set.
    pub open spec fn is_default(self) -> bool {
        &&& self.input_patch_len == 32
        &&& self.output_patch_len == 64
        &&& self.quantiles@ == deciles()
        &&& self.residual_block_config.is_default()
        &&& self.transformer_config.is_default()
        &&& self.use_variate_attention
        &&& self.value_clip.bits == 0x4415_af1d_78b5_8c40
        &&& self.use_stitching
        &&& self.use_linear_detrending
        &&& self.linear_detrending_threshold.bits == 0x3fe0_0000_0000_0000
        &&& self.use_iterative_cpm_revin
        &&& !self.use_frozen_running_stats
        &&& self.input_transform@ == "identity"@
    }
}

impl Default for TimesFM3Config {
    fn default() -> (r: Self)
        ensures
            r.is_default(),
    {
        TimesFM3Config {
            input_patch_len: 32,
            output_patch_len: 64,
            quantiles: default_quantiles(),
            residual_block_config: ResidualBlockConfig::default(),
            transformer_config: StackedTransformersConfig::default(),
            use_variate_attention: true,
            value_clip: default_value_clip(),
            use_stitching: true,
            use_linear_detrending: true,
            linear_detrending_threshold: default_linear_detrending_threshold(),
            use_iterative_cpm_revin: true,
            use_frozen_running_stats: false,
            input_transform: default_input_transform(),
        }
    }
}

/// Configuration for TimesFM 2.5 / 2.0 models.
#[derive(Debug, Clone)]
pub struct TimesFM2p5Config {
    pub patch_length: usize,
    pub horizon_length: usize,
    pub context_length: usize,
    pub num_hidden_layers: usize,
    pub num_attention_heads: usize,
    pub hidden_size: usize,
    pub intermediate_size: usize,
    pub head_dim: usize,
    pub quantiles: Vec<Double>,
    pub quantile_horizon_length: usize,
    pub rms_norm_eps: Double,
}

pub fn default_timesfm25_patch_len() -> (r: usize)
    ensures
        r == 32,
{
    32
}

pub fn default_timesfm25_horizon_len() -> (r: usize)
    ensures
        r == 128,
{
    128
}

pub fn default_timesfm25_context_len() -> (r: usize)
    ensures
        r == 16384,
{
    16384
}

pub fn default_timesfm25_num_layers() -> (r: usize)
    ensures
        r == 20,
{
    20
}

pub fn default_timesfm25_heads() -> (r: usize)
    ensures
        r == 16,
{
    16
}

pub fn default_timesfm25_head_dim() -> (r: usize)
    ensures
        r == 80,
{
    80
}

pub fn default_quantile_horizon() -> (r: usize)
    ensures
        r == 1024,
{
    1024
}

/// One millionth.
pub fn default_eps() -> (r: Double)
    ensures
        r.bits == 0x3eb0_c6f7_a0b5_ed8d,
{
    Double { bits: 0x3eb0_c6f7_a0b5_ed8d }
}

impl TimesFM2p5Config {
    /// The configuration in which nothing was set.
    pub open spec fn is_default(self) -> bool {
        &&& self.patch_length == 32
        &&& self.horizon_length == 128
        &&& self.context_length == 16384
        &&& self.num_hidden_layers == 20
        &&& self.num_attention_heads == 16
        &&& self.hidden_size == 1280
        &&& self.intermediate_size == 1280
        &&& self.head_dim == 80
        &&& self.quantiles@ == deciles()
        &&& self.quantile_horizon_length == 1024
        &&& self.rms_norm_eps.bits == 0x3eb0_c6f7_a0b5_ed8d
    }
}

impl Default for TimesFM2p5Config {
    fn default() -> (r: Self)
        ensures
            r.is_default(),
    {
        TimesFM2p5Config {
            patch_length: 32,
            horizon_length: 128,
            context_length: 16384,
            num_hidden_layers: 20,
            num_attention_heads: 16,
            hidden_size: 1280,
            intermediate_size: 1280,
            head_dim: 80,
            quantiles: default_quantiles(),
            quantile_horizon_length: 1024,
            rms_norm_eps: default_eps(),
        }
    }
}

/// What a configuration of this kind says unless it is told otherwise.
pub proof fn law_default_residual_block_config(c: ResidualBlockConfig)
    requires
        c.is_default(),
    ensures
        ({
            &&& c.hidden_dims == 1280
            &&& c.output_dims == 1280
            &&& !c.use_bias
            &&& c.activation == Activation::Relu
            &&& c.dropout == Double::zero()
            &&& !c.identity_skip
            &&& c.prenorm == NormType::Off
        }),
{
}

/// What a configuration of this kind says unless it is told otherwise.
pub proof fn law_default_transformer_config(c: TransformerConfig)
    requires
        c.is_default(),
    ensures
        ({
            &&& c.model_dims == 1280
            &&& c.hidden_dims == 1280
            &&& c.num_heads == 16
            &&& c.attention_norm == NormType::Rms
            &&& c.feedforward_norm == NormType::Rms
            &&& c.qk_norm == NormType::Rms
            &&& c.v_norm == NormType::Off
            &&& !c.use_bias
            &&& c.use_rope_seq
            &&& !c.use_rope_var
            &&& c.ff_activation == Activation::Relu
            &&& c.deterministic
            &&& c.causal_attention
            &&& !c.debug_no_masking
            &&& c.training
            &&& c.use_memory_efficient_attention
            &&& !c.paired_token_skip_second
            &&& c.max_variates == 32
            &&& c.use_sdpa
        }),
{
}

/// What a configuration of this kind says unless it is told otherwise.
pub proof fn law_default_stacked_transformers_config(c: StackedTransformersConfig)
    requires
        c.is_default(),
    ensures
        ({
            &&& c.num_layers == 20
            &&& c.transformer.is_default()
            &&& c.use_remat
        }),
{
}

/// What a configuration of this kind says unless it is told otherwise.
pub proof fn law_default_timesfm_3_config(c: TimesFM3Config)
    requires
        c.is_default(),
    ensures
        ({
            &&& c.input_patch_len == 32
            &&& c.output_patch_len == 64
            &&& c.quantiles@ == deciles()
            &&& c.residual_block_config.is_default()
            &&& c.transformer_config.is_default()
            &&& c.use_variate_attention
            &&& c.value_clip.bits == 0x4415_af1d_78b5_8c40
            &&& c.use_stitching
            &&& c.use_linear_detrending
            &&& c.linear_detrending_threshold.bits == 0x3fe0_0000_0000_0000
            &&& c.use_iterative_cpm_revin
            &&& !c.use_frozen_running_stats
            &&& c.input_transform@ == "identity"@
        }),
{
}

/// What a configuration of this kind says unless it is told otherwise.
pub proof fn law_default_timesfm_2p5_config(c: TimesFM2p5Config)
    requires
        c.is_default(),
    ensures
        ({
            &&& c.patch_length == 32
            &&& c.horizon_length == 128
            &&& c.context_length == 16384
            &&& c.num_hidden_layers == 20
            &&& c.num_attention_heads == 16
            &&& c.hidden_size == 1280
            &&& c.intermediate_size == 1280
            &&& c.head_dim == 80
            &&& c.quantiles@ == deciles()
            &&& c.quantile_horizon_length == 1024
            &&& c.rms_norm_eps.bits == 0x3eb0_c6f7_a0b5_ed8d
        }),
{
}

/// The standard levels are the nine deciles, from one tenth to nine tenths, the middle one being one half.
pub proof fn law_standard_levels()
    ensures
        deciles().len() == 9,
        deciles()[0] == Double::from_bits(0x3fb9_9999_9999_999a),
        deciles()[1] == Double::from_bits(0x3fc9_9999_9999_999a),
        deciles()[2] == Double::from_bits(0x3fd3_3333_3333_3333),
        deciles()[3] == Double::from_bits(0x3fd9_9999_9999_999a),
        deciles()[4] == Double::from_bits(0x3fe0_0000_0000_0000),
        deciles()[5] == Double::from_bits(0x3fe3_3333_3333_3333),
        deciles()[6] == Double::from_bits(0x3fe6_6666_6666_6666),
        deciles()[7] == Double::from_bits(0x3fe9_9999_9999_999a),
        deciles()[8] == Double::from_bits(0x3fec_cccc_cccc_cccd),
{
}

} // verus!

use timesfm::config::{
    default_eps, default_hidden_dims, default_input_patch_len, default_max_variates,
    default_num_heads, default_num_layers, default_output_patch_len, default_quantile_horizon,
    default_timesfm25_context_len, default_timesfm25_head_dim, default_timesfm25_heads,
    default_timesfm25_horizon_len, default_timesfm25_num_layers, default_timesfm25_patch_len,
    default_true,
};
use timesfm::{
    Activation, Double, ForecastOptions, GuardrailConfig, NormType, ResidualBlockConfig,
    StackedTransformersConfig, TimesFM2p5Config, TimesFM3Config, TransformerConfig,
};

fn wide(x: Double) -> f64 {
    f64::from_bits(x.to_bits())
}

#[test]
fn defaults_of_the_current_model() {
    let c = TimesFM3Config::default();
    assert_eq!((c.input_patch_len, c.output_patch_len), (32, 64));
    let levels: Vec<f64> = c.quantiles.iter().map(|q| wide(*q)).collect();
    assert_eq!(levels, vec![0.1, 0.2, 0.3, 0.4, 0.5, 0.6, 0.7, 0.8, 0.9]);
    assert!(c.use_variate_attention && c.use_stitching && c.use_linear_detrending);
    assert!(c.use_iterative_cpm_revin && !c.use_frozen_running_stats);
    assert_eq!(wide(c.value_clip), 1e20);
    assert_eq!(wide(c.linear_detrending_threshold), 0.5);
    assert_eq!(c.input_transform, "identity");
    let s = StackedTransformersConfig::default();
    assert_eq!(s.num_layers, 20);
    assert!(s.use_remat);
}

#[test]
fn defaults_of_the_layers() {
    let r = ResidualBlockConfig::default();
    assert_eq!((r.hidden_dims, r.output_dims), (1280, 1280));
    assert!(!r.use_bias && !r.identity_skip);
    assert_eq!(wide(r.dropout), 0.0);
    assert_eq!(r.prenorm, NormType::Off);
    assert_eq!(r.activation, Activation::Relu);
    assert_eq!(NormType::default(), NormType::Rms);
    assert_eq!(Activation::default(), Activation::Relu);
    let t = TransformerConfig::default();
    assert_eq!((t.model_dims, t.hidden_dims, t.num_heads, t.max_variates), (1280, 1280, 16, 32));
    assert_eq!(t.attention_norm, NormType::Rms);
    assert_eq!(t.feedforward_norm, NormType::Rms);
    assert_eq!(t.qk_norm, NormType::Rms);
    assert_eq!(t.v_norm, NormType::Off);
    assert!(t.use_rope_seq && !t.use_rope_var && t.deterministic && t.causal_attention);
    assert!(!t.debug_no_masking && t.training && t.use_memory_efficient_attention);
    assert!(!t.paired_token_skip_second && t.use_sdpa && !t.use_bias);
}

#[test]
fn defaults_of_the_earlier_models() {
    let c = TimesFM2p5Config::default();
    assert_eq!((c.patch_length, c.horizon_length, c.context_length), (32, 128, 16384));
    assert_eq!((c.num_hidden_layers, c.num_attention_heads, c.head_dim), (20, 16, 80));
    assert_eq!((c.hidden_size, c.intermediate_size, c.quantile_horizon_length), (1280, 1280, 1024));
    assert_eq!(wide(c.rms_norm_eps), 1e-6);
    assert_eq!(c.quantiles.len(), 9);
}

#[test]
fn single_defaults() {
    assert_eq!(default_hidden_dims(), 1280);
    assert_eq!(default_num_heads(), 16);
    assert_eq!(default_max_variates(), 32);
    assert!(default_true());
    assert_eq!(default_num_layers(), 20);
    assert_eq!(default_input_patch_len(), 32);
    assert_eq!(default_output_patch_len(), 64);
    assert_eq!(default_timesfm25_patch_len(), 32);
    assert_eq!(default_timesfm25_horizon_len(), 128);
    assert_eq!(default_timesfm25_context_len(), 16384);
    assert_eq!(default_timesfm25_num_layers(), 20);
    assert_eq!(default_timesfm25_heads(), 16);
    assert_eq!(default_timesfm25_head_dim(), 80);
    assert_eq!(default_quantile_horizon(), 1024);
    assert_eq!(wide(default_eps()), 1e-6);
    let g = GuardrailConfig::default();
    assert_eq!(g.min_length, 3);
    assert_eq!(f32::from_bits(g.max_nan_ratio.to_bits()), 0.3);
    assert_eq!(f32::from_bits(g.min_variance.to_bits()), 1e-8);
    let o = ForecastOptions::default();
    assert!(o.return_quantiles && o.sort_quantiles);
    assert!(!o.use_symmetric_averaging && !o.make_positive && !o.use_znorm);
}

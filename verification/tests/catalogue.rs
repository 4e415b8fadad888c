use gaussrdl::metrics::{
    AveragePrecision, Accuracy, AUPRC, AUROC, F1Score, LinkPredictionPrecision, LinkPredictionRecall,
    MacroF1, MAE, MAP, MRR, MSE, NDCG, R2, RMSE,
};
use gaussrdl::models::{
    check_compatibility, ActivationType, CheckpointMismatch, DeviceConfig, DeviceType, FeatureScaling, ModelType, PaddingStrategy, PositionalEncoding,
    SinusoidalPositionalEmbedding, TokenizerConfig, TruncationStrategy,
};

#[test]
fn metric_names() {
    assert_eq!(MAE::new().name(), "mae");
    assert_eq!(RMSE::new().name(), "rmse");
    assert_eq!(MAP::new(5).name(), "map");
    assert_eq!(AUROC::new().name(), "auroc");
    assert_eq!(Accuracy::new().name(), "accuracy");
    assert_eq!(F1Score::new().name(), "f1");
    assert_eq!(MSE::new().name(), "mse");
    assert_eq!(MRR::new().name(), "mrr");
    assert_eq!(NDCG::new(10).name(), "ndcg");
    assert_eq!(AUPRC::new().name(), "auprc");
    assert_eq!(R2::new().name(), "r2");
    assert_eq!(MacroF1::new(3).name(), "macro_f1");
    assert_eq!(LinkPredictionRecall::new(10).name(), "link_prediction_recall");
    assert_eq!(LinkPredictionPrecision::new(10).name(), "link_prediction_precision");
    assert_eq!(AveragePrecision::new().name(), "average_precision");
}

#[test]
fn metric_descriptions_and_parameters() {
    assert_eq!(MAE::new().description(), "Mean Absolute Error");
    assert_eq!(R2::new().description(), "R-squared (Coefficient of Determination)");
    assert_eq!(MacroF1::new(4).description(), "Macro-averaged F1 Score");
    assert_eq!(MacroF1::new(4).num_classes(), 4);
    assert_eq!(MAP::new(7).k(), 7);
    assert_eq!(NDCG::new(3).k(), 3);
    assert_eq!(LinkPredictionRecall::new(2).description(), "Link Prediction Recall@K");
    assert_eq!(LinkPredictionPrecision::new(9).k(), 9);
}

#[test]
fn model_and_activation_names() {
    assert_eq!(ModelType::RGCN.to_string(), "RGCN");
    assert_eq!(ModelType::StageGNN.to_string(), "StageGNN");
    assert_eq!(ModelType::Custom("mine".to_string()).to_string(), "mine");
    assert_eq!(ActivationType::LeakyReLU.to_string(), "leaky_relu");
    assert_eq!(ActivationType::GELU.to_string(), "gelu");
}

#[test]
fn configuration_defaults() {
    let d = DeviceConfig::default();
    assert_eq!(d.device_type, DeviceType::Auto);
    assert_eq!(d.memory_limit, None);
    assert!(!d.use_mixed_precision);

    let t = TokenizerConfig::default();
    assert_eq!(t.max_length, 512);
    assert_eq!(t.max_nodes, 1000);
    assert_eq!(t.max_edges, 5000);
    assert_eq!(t.positional_encoding_dim, 128);
    assert_eq!(t.padding_strategy, PaddingStrategy::MaxLength);
    assert_eq!(t.truncation_strategy, TruncationStrategy::TruncateEnd);
    assert_eq!(t.feature_scaling, FeatureScaling::ZScore);
}

#[test]
fn positional_encodings_keep_their_sizes() {
    let s = SinusoidalPositionalEmbedding::new(100, 64);
    assert_eq!(s.max_position(), 100);
    assert_eq!(s.embedding_dim(), 64);
    assert_eq!(PositionalEncoding::new(32).embedding_dim(), 32);
}

#[test]
fn checkpoint_compatibility_reports_the_first_mismatch() {
    assert!(check_compatibility(&ModelType::GAT, 256, 3, &ModelType::GAT, 256, 3).is_ok());
    assert!(check_compatibility(&ModelType::Custom("m".to_string()), 8, 1, &ModelType::Custom("m".to_string()), 8, 1).is_ok());
    match check_compatibility(&ModelType::GAT, 256, 3, &ModelType::RGCN, 128, 2) {
        Err(CheckpointMismatch::ModelType { saved, current }) => {
            assert_eq!(saved, ModelType::GAT);
            assert_eq!(current, ModelType::RGCN);
        }
        other => panic!("unexpected {:?}", other),
    }
    assert!(matches!(
        check_compatibility(&ModelType::GAT, 256, 3, &ModelType::GAT, 128, 2),
        Err(CheckpointMismatch::HiddenDim { saved: 256, current: 128 })
    ));
    assert!(matches!(
        check_compatibility(&ModelType::GAT, 256, 3, &ModelType::GAT, 256, 2),
        Err(CheckpointMismatch::NumLayers { saved: 3, current: 2 })
    ));
    assert!(!ModelType::Custom("a".to_string()).same_as(&ModelType::Custom("b".to_string())));
}

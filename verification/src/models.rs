//! Configuration vocabulary of the models: devices, model and layer kinds,
//! embedding and tokenizer settings.

use vstd::prelude::*;
use vstd::string::*;
use std::collections::HashMap;

verus! {

/// Where a model runs.
#[derive(Debug, Clone, PartialEq, Eq, Structural)]
pub enum DeviceType {
    CPU,
    CUDA(usize),
    Metal,
    Auto,
}

/// Device choice together with its memory budget.
#[derive(Debug, Clone)]
pub struct DeviceConfig {
    pub device_type: DeviceType,
    pub memory_limit: Option<usize>,
    pub use_mixed_precision: bool,
}

impl Default for DeviceConfig {
    /// Automatic device choice, no memory limit, full precision.
    fn default() -> (r: Self)
        ensures
            r.device_type == DeviceType::Auto,
            r.memory_limit is None,
            !r.use_mixed_precision,
    {
        DeviceConfig { device_type: DeviceType::Auto, memory_limit: None, use_mixed_precision: false }
    }
}

/// The model families the system knows, and user-named ones.
#[derive(Debug, Clone, PartialEq, Eq)]
pub enum ModelType {
    RGCN,
    StageGNN,
    LightRDL,
    GAT,
    BaseGNN,
    Custom(String),
}

/// The display name of a model type; a custom model shows its own name.
pub open spec fn model_type_name(m: ModelType) -> Seq<char> {
    match m {
        ModelType::RGCN => "RGCN"@,
        ModelType::StageGNN => "StageGNN"@,
        ModelType::LightRDL => "LightRDL"@,
        ModelType::GAT => "GAT"@,
        ModelType::BaseGNN => "BaseGNN"@,
        ModelType::Custom(name) => name@,
    }
}

impl ModelType {
    /// The display name of the model type.
    pub fn to_string(&self) -> (s: String)
        ensures
            s@ == model_type_name(*self),
    {
        match self {
            ModelType::RGCN => String::from_str("RGCN"),
            ModelType::StageGNN => String::from_str("StageGNN"),
            ModelType::LightRDL => String::from_str("LightRDL"),
            ModelType::GAT => String::from_str("GAT"),
            ModelType::BaseGNN => String::from_str("BaseGNN"),
            ModelType::Custom(name) => name.clone(),
        }
    }
}

/// Two model types are the same family; custom models match by name.
pub open spec fn same_model_type(a: ModelType, b: ModelType) -> bool {
    match a {
        ModelType::Custom(x) => match b {
            ModelType::Custom(y) => x@ == y@,
            _ => false,
        },
        _ => match b {
            ModelType::Custom(_) => false,
            _ => a == b,
        },
    }
}

impl ModelType {
    /// A copy of the model type.
    pub fn copied(&self) -> (r: ModelType)
        ensures
            r == *self,
    {
        match self {
            ModelType::RGCN => ModelType::RGCN,
            ModelType::StageGNN => ModelType::StageGNN,
            ModelType::LightRDL => ModelType::LightRDL,
            ModelType::GAT => ModelType::GAT,
            ModelType::BaseGNN => ModelType::BaseGNN,
            ModelType::Custom(name) => ModelType::Custom(name.clone()),
        }
    }

    /// Whether `self` and `other` are the same model family.
    pub fn same_as(&self, other: &ModelType) -> (r: bool)
        ensures
            r == same_model_type(*self, *other),
    {
        match (self, other) {
            (ModelType::RGCN, ModelType::RGCN) => true,
            (ModelType::StageGNN, ModelType::StageGNN) => true,
            (ModelType::LightRDL, ModelType::LightRDL) => true,
            (ModelType::GAT, ModelType::GAT) => true,
            (ModelType::BaseGNN, ModelType::BaseGNN) => true,
            (ModelType::Custom(x), ModelType::Custom(y)) => *x == *y,
            _ => false,
        }
    }
}

/// Why a saved checkpoint does not fit the current model configuration:
/// the first of model type, hidden dimension and layer count that differs,
/// with the saved and the current value.
#[derive(Debug)]
pub enum CheckpointMismatch {
    ModelType { saved: ModelType, current: ModelType },
    HiddenDim { saved: usize, current: usize },
    NumLayers { saved: usize, current: usize },
}

/// Checks that a checkpoint saved with model type `saved_type`, hidden
/// dimension `saved_hidden_dim` and `saved_num_layers` layers can be loaded
/// into a model of the current type and architecture: model type first,
/// then hidden dimension, then layer count.
pub fn check_compatibility(
    saved_type: &ModelType,
    saved_hidden_dim: usize,
    saved_num_layers: usize,
    current_type: &ModelType,
    current_hidden_dim: usize,
    current_num_layers: usize,
) -> (r: Result<(), CheckpointMismatch>)
    ensures
        !same_model_type(*saved_type, *current_type) ==> r == Err::<(), CheckpointMismatch>(
            CheckpointMismatch::ModelType { saved: *saved_type, current: *current_type }),
        same_model_type(*saved_type, *current_type) && saved_hidden_dim != current_hidden_dim
            ==> r == Err::<(), CheckpointMismatch>(
            CheckpointMismatch::HiddenDim { saved: saved_hidden_dim, current: current_hidden_dim }),
        same_model_type(*saved_type, *current_type) && saved_hidden_dim == current_hidden_dim
            && saved_num_layers != current_num_layers ==> r == Err::<(), CheckpointMismatch>(
            CheckpointMismatch::NumLayers { saved: saved_num_layers, current: current_num_layers }),
        same_model_type(*saved_type, *current_type) && saved_hidden_dim == current_hidden_dim
            && saved_num_layers == current_num_layers ==> r is Ok,
{
    if !saved_type.same_as(current_type) {
        return Err(CheckpointMismatch::ModelType { saved: saved_type.copied(), current: current_type.copied() });
    }
    if saved_hidden_dim != current_hidden_dim {
        return Err(CheckpointMismatch::HiddenDim { saved: saved_hidden_dim, current: current_hidden_dim });
    }
    if saved_num_layers != current_num_layers {
        return Err(CheckpointMismatch::NumLayers { saved: saved_num_layers, current: current_num_layers });
    }
    Ok(())
}

/// Activation functions of the layers.
#[derive(Debug, Clone, Copy, PartialEq, Eq, Structural)]
pub enum ActivationType {
    ReLU,
    GELU,
    Tanh,
    Sigmoid,
    LeakyReLU,
    Swish,
}

/// The lower-case name under which an activation is displayed and looked up.
pub open spec fn activation_name(a: ActivationType) -> Seq<char> {
    match a {
        ActivationType::ReLU => "relu"@,
        ActivationType::GELU => "gelu"@,
        ActivationType::Tanh => "tanh"@,
        ActivationType::Sigmoid => "sigmoid"@,
        ActivationType::LeakyReLU => "leaky_relu"@,
        ActivationType::Swish => "swish"@,
    }
}

impl ActivationType {
    /// The display name of the activation.
    pub fn to_string(&self) -> (s: String)
        ensures
            s@ == activation_name(*self),
    {
        match self {
            ActivationType::ReLU => String::from_str("relu"),
            ActivationType::GELU => String::from_str("gelu"),
            ActivationType::Tanh => String::from_str("tanh"),
            ActivationType::Sigmoid => String::from_str("sigmoid"),
            ActivationType::LeakyReLU => String::from_str("leaky_relu"),
            ActivationType::Swish => String::from_str("swish"),
        }
    }
}

/// One layer of a model summary.
#[derive(Debug, Clone)]
pub struct LayerInfo {
    pub name: String,
    pub layer_type: String,
    pub input_shape: Vec<usize>,
    pub output_shape: Vec<usize>,
    pub parameters: usize,
}

/// Attention mechanisms of the graph transformer.
#[derive(Debug, Clone, Copy, PartialEq, Eq, Structural)]
pub enum AttentionType {
    /// Scaled dot-product attention.
    Standard,
    /// Multi-head attention.
    MultiHead,
    /// Attention restricted to graph neighbours.
    Graph,
    /// Memory-efficient attention.
    Flash,
    /// Linear-time attention.
    Linear,
}

/// Learning tasks of the graph transformer.
#[derive(Debug, Clone, PartialEq, Eq, Structural)]
pub enum TaskType {
    BinaryClassification,
    MultiClassification,
    Regression,
    Ranking,
    NodeClassification,
    LinkPrediction,
    GraphClassification,
}

/// Which neighbourhood a transformer convolution attends to.
#[derive(Debug, Clone, PartialEq, Eq, Structural)]
pub enum ConvType {
    Local,
    Global,
    Full,
}

/// How token sequences are padded.
#[derive(Debug, Clone, PartialEq, Eq, Structural)]
pub enum PaddingStrategy {
    /// Pad to the maximum length.
    MaxLength,
    /// Pad to the longest sequence of the batch.
    LongestInBatch,
    /// No padding.
    NoPadding,
}

/// How over-long token sequences are cut.
#[derive(Debug, Clone, PartialEq, Eq, Structural)]
pub enum TruncationStrategy {
    /// Cut at the end.
    TruncateEnd,
    /// Cut at the beginning.
    TruncateBeginning,
    /// Cut at random positions.
    TruncateRandom,
    /// Never cut.
    NoTruncation,
}

/// How numerical features are scaled.
#[derive(Debug, Clone, PartialEq, Eq, Structural)]
pub enum FeatureScaling {
    /// No scaling (named `None` in the serialised form).
    NoScaling,
    /// Min-max normalisation.
    MinMax,
    /// Z-score normalisation.
    ZScore,
    /// Robust scaling.
    Robust,
}

/// Settings of the subgraph tokenizer.
#[derive(Debug, Clone)]
pub struct TokenizerConfig {
    /// Maximum sequence length.
    pub max_length: usize,
    /// Maximum number of nodes per subgraph.
    pub max_nodes: usize,
    /// Maximum number of edges per subgraph.
    pub max_edges: usize,
    /// Vocabulary size for node types.
    pub node_type_vocab_size: usize,
    /// Vocabulary size for relation types.
    pub relation_type_vocab_size: usize,
    /// Whether positions are encoded.
    pub use_positional_encoding: bool,
    /// Dimension of the positional encoding.
    pub positional_encoding_dim: usize,
    /// Whether time is encoded.
    pub use_temporal_encoding: bool,
    pub padding_strategy: PaddingStrategy,
    pub truncation_strategy: TruncationStrategy,
    /// Whether features are normalised.
    pub normalize_features: bool,
    pub feature_scaling: FeatureScaling,
}

impl Default for TokenizerConfig {
    fn default() -> (r: Self)
        ensures
            r.max_length == 512,
            r.max_nodes == 1000,
            r.max_edges == 5000,
            r.node_type_vocab_size == 1000,
            r.relation_type_vocab_size == 100,
            r.use_positional_encoding,
            r.positional_encoding_dim == 128,
            r.use_temporal_encoding,
            r.padding_strategy == PaddingStrategy::MaxLength,
            r.truncation_strategy == TruncationStrategy::TruncateEnd,
            r.normalize_features,
            r.feature_scaling == FeatureScaling::ZScore,
    {
        TokenizerConfig {
            max_length: 512,
            max_nodes: 1000,
            max_edges: 5000,
            node_type_vocab_size: 1000,
            relation_type_vocab_size: 100,
            use_positional_encoding: true,
            positional_encoding_dim: 128,
            use_temporal_encoding: true,
            padding_strategy: PaddingStrategy::MaxLength,
            truncation_strategy: TruncationStrategy::TruncateEnd,
            normalize_features: true,
            feature_scaling: FeatureScaling::ZScore,
        }
    }
}

/// Embedding sizes of the node types.
#[derive(Debug, Clone)]
pub struct NodeTypeConfig {
    pub type_names: Vec<String>,
    pub embedding_dim: usize,
}

/// Embedding sizes of the relations.
#[derive(Debug, Clone)]
pub struct RelationConfig {
    pub num_relations: usize,
    pub embedding_dim: usize,
}

/// Embedding sizes of the positions.
#[derive(Debug, Clone)]
pub struct PositionalConfig {
    pub max_length: usize,
    pub embedding_dim: usize,
}

/// Embedding size of time stamps.
#[derive(Debug, Clone)]
pub struct TemporalConfig {
    pub embedding_dim: usize,
}

/// Embedding sizes of one categorical feature.
#[derive(Debug, Clone)]
pub struct CategoricalConfig {
    pub vocab_size: usize,
    pub embedding_dim: usize,
}

/// Which relational embeddings a model uses, and their sizes.
#[derive(Debug, Clone)]
pub struct RelationalEmbeddingConfig {
    pub node_types: Option<NodeTypeConfig>,
    pub relations: Option<RelationConfig>,
    pub positional: Option<PositionalConfig>,
    pub temporal: Option<TemporalConfig>,
    pub categorical_features: HashMap<String, CategoricalConfig>,
}

/// Fixed sinusoidal position embeddings for up to `max_position` positions.
pub struct SinusoidalPositionalEmbedding {
    embedding_dim: usize,
    max_position: usize,
}

impl SinusoidalPositionalEmbedding {
    pub closed spec fn spec_embedding_dim(&self) -> usize {
        self.embedding_dim
    }

    pub closed spec fn spec_max_position(&self) -> usize {
        self.max_position
    }

    pub fn new(max_position: usize, embedding_dim: usize) -> (r: Self)
        ensures
            r.spec_max_position() == max_position,
            r.spec_embedding_dim() == embedding_dim,
    {
        SinusoidalPositionalEmbedding { embedding_dim, max_position }
    }

    /// The width of each position's embedding.
    pub fn embedding_dim(&self) -> (r: usize)
        ensures
            r == self.spec_embedding_dim(),
    {
        self.embedding_dim
    }

    /// The number of positions that can be embedded.
    pub fn max_position(&self) -> (r: usize)
        ensures
            r == self.spec_max_position(),
    {
        self.max_position
    }
}

/// Sinusoidal positional encoding of a given width.
pub struct PositionalEncoding {
    embedding_dim: usize,
}

impl PositionalEncoding {
    pub closed spec fn spec_embedding_dim(&self) -> usize {
        self.embedding_dim
    }

    pub fn new(embedding_dim: usize) -> (r: Self)
        ensures
            r.spec_embedding_dim() == embedding_dim,
    {
        PositionalEncoding { embedding_dim }
    }

    /// The width of the encoding.
    pub fn embedding_dim(&self) -> (r: usize)
        ensures
            r == self.spec_embedding_dim(),
    {
        self.embedding_dim
    }
}

/// Helpers around the tensor library: layer construction, activations,
/// dropout. They compute on tensors and live with the callers that hold them.
pub struct CandleHelper;

/// Initialisation of embedding tables; it works on tensors and lives with
/// the callers that hold them.
pub struct EmbeddingUtils;

/// The factory of graph-transformer models with their default configuration.
pub struct DefaultModelFactory;

/// Keeps the checkpoints of a training run in one directory: at most
/// `max_checkpoints` rotating ones besides the latest and the best.
pub struct CheckpointManager {
    checkpoint_dir: String,
    max_checkpoints: usize,
    save_optimizer_state: bool,
    save_best_only: bool,
}

impl CheckpointManager {
    pub closed spec fn spec_checkpoint_dir(&self) -> Seq<char> {
        self.checkpoint_dir@
    }

    pub closed spec fn spec_max_checkpoints(&self) -> usize {
        self.max_checkpoints
    }

    pub closed spec fn spec_save_optimizer_state(&self) -> bool {
        self.save_optimizer_state
    }

    pub closed spec fn spec_save_best_only(&self) -> bool {
        self.save_best_only
    }

    /// A manager for the checkpoints in `checkpoint_dir`; the directory
    /// itself is created by the caller.
    pub fn new(checkpoint_dir: String, max_checkpoints: usize, save_optimizer_state: bool, save_best_only: bool) -> (r: Self)
        ensures
            r.spec_checkpoint_dir() == checkpoint_dir@,
            r.spec_max_checkpoints() == max_checkpoints,
            r.spec_save_optimizer_state() == save_optimizer_state,
            r.spec_save_best_only() == save_best_only,
    {
        CheckpointManager { checkpoint_dir, max_checkpoints, save_optimizer_state, save_best_only }
    }

    /// The directory that holds the checkpoints.
    pub fn checkpoint_dir(&self) -> (r: &String)
        ensures
            r@ == self.spec_checkpoint_dir(),
    {
        &self.checkpoint_dir
    }

    /// How many rotating checkpoints are kept.
    pub fn max_checkpoints(&self) -> (r: usize)
        ensures
            r == self.spec_max_checkpoints(),
    {
        self.max_checkpoints
    }

    /// Whether optimizer state is saved with each checkpoint.
    pub fn save_optimizer_state(&self) -> (r: bool)
        ensures
            r == self.spec_save_optimizer_state(),
    {
        self.save_optimizer_state
    }

    /// Whether only improving checkpoints are saved.
    pub fn save_best_only(&self) -> (r: bool)
        ensures
            r == self.spec_save_best_only(),
    {
        self.save_best_only
    }

    /// Of `count` rotating checkpoints, oldest first, how many of the oldest
    /// are removed so that at most `max_checkpoints` remain.
    pub fn checkpoints_to_remove(&self, count: usize) -> (r: usize)
        ensures
            count > self.spec_max_checkpoints() ==> r == count - self.spec_max_checkpoints(),
            count <= self.spec_max_checkpoints() ==> r == 0,
    {
        if count > self.max_checkpoints {
            count - self.max_checkpoints
        } else {
            0
        }
    }
}

} // verus!

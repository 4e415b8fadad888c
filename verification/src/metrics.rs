//! Evaluation metrics: their identities and parameters. Each metric has a
//! stable short name, under which results are reported, and a human-readable
//! description.

use vstd::prelude::*;

verus! {

/// Mean absolute error of predictions against targets.
#[derive(Debug)]
pub struct MAE;

impl MAE {
    pub fn new() -> (r: Self) {
        MAE
    }

    /// The short name under which the metric is reported.
    pub fn name(&self) -> (r: &'static str)
        ensures
            r@ == "mae"@,
    {
        "mae"
    }

    /// What the metric measures.
    pub fn description(&self) -> (r: &'static str)
        ensures
            r@ == "Mean Absolute Error"@,
    {
        "Mean Absolute Error"
    }
}

/// Root of the mean squared error.
#[derive(Debug)]
pub struct RMSE;

impl RMSE {
    pub fn new() -> (r: Self) {
        RMSE
    }

    /// The short name under which the metric is reported.
    pub fn name(&self) -> (r: &'static str)
        ensures
            r@ == "rmse"@,
    {
        "rmse"
    }

    /// What the metric measures.
    pub fn description(&self) -> (r: &'static str)
        ensures
            r@ == "Root Mean Square Error"@,
    {
        "Root Mean Square Error"
    }
}

/// Mean average precision over the `k` highest-scored items.
#[derive(Debug)]
pub struct MAP {
    k: usize,
}

impl MAP {
    pub closed spec fn spec_k(&self) -> usize {
        self.k
    }

    pub fn new(k: usize) -> (r: Self)
        ensures
            r.spec_k() == k,
    {
        MAP { k }
    }

    pub fn k(&self) -> (r: usize)
        ensures
            r == self.spec_k(),
    {
        self.k
    }

    /// The short name under which the metric is reported.
    pub fn name(&self) -> (r: &'static str)
        ensures
            r@ == "map"@,
    {
        "map"
    }

    /// What the metric measures.
    pub fn description(&self) -> (r: &'static str)
        ensures
            r@ == "Mean Average Precision"@,
    {
        "Mean Average Precision"
    }
}

/// Area under the receiver operating characteristic curve.
#[derive(Debug)]
pub struct AUROC;

impl AUROC {
    pub fn new() -> (r: Self) {
        AUROC
    }

    /// The short name under which the metric is reported.
    pub fn name(&self) -> (r: &'static str)
        ensures
            r@ == "auroc"@,
    {
        "auroc"
    }

    /// What the metric measures.
    pub fn description(&self) -> (r: &'static str)
        ensures
            r@ == "Area Under ROC Curve"@,
    {
        "Area Under ROC Curve"
    }
}

/// Share of predictions that round to their target.
#[derive(Debug)]
pub struct Accuracy;

impl Accuracy {
    pub fn new() -> (r: Self) {
        Accuracy
    }

    /// The short name under which the metric is reported.
    pub fn name(&self) -> (r: &'static str)
        ensures
            r@ == "accuracy"@,
    {
        "accuracy"
    }

    /// What the metric measures.
    pub fn description(&self) -> (r: &'static str)
        ensures
            r@ == "Accuracy"@,
    {
        "Accuracy"
    }
}

/// Harmonic mean of precision and recall at threshold 0.5.
#[derive(Debug)]
pub struct F1Score;

impl F1Score {
    pub fn new() -> (r: Self) {
        F1Score
    }

    /// The short name under which the metric is reported.
    pub fn name(&self) -> (r: &'static str)
        ensures
            r@ == "f1"@,
    {
        "f1"
    }

    /// What the metric measures.
    pub fn description(&self) -> (r: &'static str)
        ensures
            r@ == "F1 Score"@,
    {
        "F1 Score"
    }
}

/// Mean squared error of predictions against targets.
#[derive(Debug)]
pub struct MSE;

impl MSE {
    pub fn new() -> (r: Self) {
        MSE
    }

    /// The short name under which the metric is reported.
    pub fn name(&self) -> (r: &'static str)
        ensures
            r@ == "mse"@,
    {
        "mse"
    }

    /// What the metric measures.
    pub fn description(&self) -> (r: &'static str)
        ensures
            r@ == "Mean Squared Error"@,
    {
        "Mean Squared Error"
    }
}

/// Reciprocal rank of the first relevant item.
#[derive(Debug)]
pub struct MRR;

impl MRR {
    pub fn new() -> (r: Self) {
        MRR
    }

    /// The short name under which the metric is reported.
    pub fn name(&self) -> (r: &'static str)
        ensures
            r@ == "mrr"@,
    {
        "mrr"
    }

    /// What the metric measures.
    pub fn description(&self) -> (r: &'static str)
        ensures
            r@ == "Mean Reciprocal Rank"@,
    {
        "Mean Reciprocal Rank"
    }
}

/// Normalised discounted cumulative gain over the `k` highest-scored items.
#[derive(Debug)]
pub struct NDCG {
    k: usize,
}

impl NDCG {
    pub closed spec fn spec_k(&self) -> usize {
        self.k
    }

    pub fn new(k: usize) -> (r: Self)
        ensures
            r.spec_k() == k,
    {
        NDCG { k }
    }

    pub fn k(&self) -> (r: usize)
        ensures
            r == self.spec_k(),
    {
        self.k
    }

    /// The short name under which the metric is reported.
    pub fn name(&self) -> (r: &'static str)
        ensures
            r@ == "ndcg"@,
    {
        "ndcg"
    }

    /// What the metric measures.
    pub fn description(&self) -> (r: &'static str)
        ensures
            r@ == "Normalized Discounted Cumulative Gain"@,
    {
        "Normalized Discounted Cumulative Gain"
    }
}

/// Area under the precision-recall curve.
#[derive(Debug)]
pub struct AUPRC;

impl AUPRC {
    pub fn new() -> (r: Self) {
        AUPRC
    }

    /// The short name under which the metric is reported.
    pub fn name(&self) -> (r: &'static str)
        ensures
            r@ == "auprc"@,
    {
        "auprc"
    }

    /// What the metric measures.
    pub fn description(&self) -> (r: &'static str)
        ensures
            r@ == "Area Under Precision-Recall Curve"@,
    {
        "Area Under Precision-Recall Curve"
    }
}

/// Coefficient of determination.
#[derive(Debug)]
pub struct R2;

impl R2 {
    pub fn new() -> (r: Self) {
        R2
    }

    /// The short name under which the metric is reported.
    pub fn name(&self) -> (r: &'static str)
        ensures
            r@ == "r2"@,
    {
        "r2"
    }

    /// What the metric measures.
    pub fn description(&self) -> (r: &'static str)
        ensures
            r@ == "R-squared (Coefficient of Determination)"@,
    {
        "R-squared (Coefficient of Determination)"
    }
}

/// F1 score averaged over `num_classes` classes.
#[derive(Debug)]
pub struct MacroF1 {
    num_classes: usize,
}

impl MacroF1 {
    pub closed spec fn spec_num_classes(&self) -> usize {
        self.num_classes
    }

    pub fn new(num_classes: usize) -> (r: Self)
        ensures
            r.spec_num_classes() == num_classes,
    {
        MacroF1 { num_classes }
    }

    pub fn num_classes(&self) -> (r: usize)
        ensures
            r == self.spec_num_classes(),
    {
        self.num_classes
    }

    /// The short name under which the metric is reported.
    pub fn name(&self) -> (r: &'static str)
        ensures
            r@ == "macro_f1"@,
    {
        "macro_f1"
    }

    /// What the metric measures.
    pub fn description(&self) -> (r: &'static str)
        ensures
            r@ == "Macro-averaged F1 Score"@,
    {
        "Macro-averaged F1 Score"
    }
}

/// Share of the true links found among the `k` highest-scored candidates.
#[derive(Debug)]
pub struct LinkPredictionRecall {
    k: usize,
}

impl LinkPredictionRecall {
    pub closed spec fn spec_k(&self) -> usize {
        self.k
    }

    pub fn new(k: usize) -> (r: Self)
        ensures
            r.spec_k() == k,
    {
        LinkPredictionRecall { k }
    }

    pub fn k(&self) -> (r: usize)
        ensures
            r == self.spec_k(),
    {
        self.k
    }

    /// The short name under which the metric is reported.
    pub fn name(&self) -> (r: &'static str)
        ensures
            r@ == "link_prediction_recall"@,
    {
        "link_prediction_recall"
    }

    /// What the metric measures.
    pub fn description(&self) -> (r: &'static str)
        ensures
            r@ == "Link Prediction Recall@K"@,
    {
        "Link Prediction Recall@K"
    }
}

/// Share of true links among the `k` highest-scored candidates.
#[derive(Debug)]
pub struct LinkPredictionPrecision {
    k: usize,
}

impl LinkPredictionPrecision {
    pub closed spec fn spec_k(&self) -> usize {
        self.k
    }

    pub fn new(k: usize) -> (r: Self)
        ensures
            r.spec_k() == k,
    {
        LinkPredictionPrecision { k }
    }

    pub fn k(&self) -> (r: usize)
        ensures
            r == self.spec_k(),
    {
        self.k
    }

    /// The short name under which the metric is reported.
    pub fn name(&self) -> (r: &'static str)
        ensures
            r@ == "link_prediction_precision"@,
    {
        "link_prediction_precision"
    }

    /// What the metric measures.
    pub fn description(&self) -> (r: &'static str)
        ensures
            r@ == "Link Prediction Precision@K"@,
    {
        "Link Prediction Precision@K"
    }
}

/// Average precision over the ranking by score.
#[derive(Debug)]
pub struct AveragePrecision;

impl AveragePrecision {
    pub fn new() -> (r: Self) {
        AveragePrecision
    }

    /// The short name under which the metric is reported.
    pub fn name(&self) -> (r: &'static str)
        ensures
            r@ == "average_precision"@,
    {
        "average_precision"
    }

    /// What the metric measures.
    pub fn description(&self) -> (r: &'static str)
        ensures
            r@ == "Average Precision Score"@,
    {
        "Average Precision Score"
    }
}

} // verus!

//! Raw PMML structures, one per element kind the unmarshaler understands.
//!
//! Numeric attributes and array entries that hold real numbers are kept as
//! their attribute text (`Option<String>`, `Vec<String>`): turning that text
//! into floating-point values is left to the caller. Integer attributes are
//! parsed here.

use vstd::prelude::*;
use crate::textmap::TextMap;

verus! {


#[derive(Debug)]
pub struct RawDataField {
    pub name: String,
    pub data_type: String,
    pub op_type: String,
    pub values: Vec<String>, // <Value value=...>
}

#[derive(Debug)]
pub struct RawMiningField {
    pub name: String,
    pub usage_type: Option<String>, // target, active (default)
    pub importance: Option<String>,
    pub outliers: Option<String>,
    pub low_value: Option<String>,
    pub high_value: Option<String>,
    pub missing_value_replacement: Option<String>,
    pub missing_value_treatment: Option<String>,
    pub invalid_value_treatment: Option<String>,
    pub invalid_value_replacement: Option<String>,
    pub op_type: Option<String>,
}

#[derive(Debug)]
pub struct RawTargetValue {
    pub value: Option<String>,
    pub display_value: Option<String>,
    pub prior_probability: Option<String>,
    pub default_value: Option<String>,
}

#[derive(Debug)]
pub struct RawTarget {
    pub field: Option<String>,
    pub op_type: Option<String>,
    pub cast_integer: Option<String>,
    pub min: Option<String>,
    pub max: Option<String>,
    pub rescale_constant: Option<String>,
    pub rescale_factor: Option<String>,
    pub target_values: Vec<RawTargetValue>,
}

#[derive(Debug)]
pub struct RawOutputField {
    pub name: String,
    pub feature: Option<String>,
    pub value: Option<String>,
    pub target_field: Option<String>,
    pub data_type: Option<String>,
    pub op_type: Option<String>,
    pub rule_feature: Option<String>,
    pub algorithm: Option<String>,
    pub rank: Option<i32>,
    pub rank_basis: Option<String>,
    pub rank_order: Option<String>,
    pub is_multi_valued: Option<String>,
    pub segment_id: Option<String>,
    pub is_final_result: Option<bool>,
    pub display_name: Option<String>,
}

#[derive(Debug)]
pub struct RawTreeModel {
    pub function_name: String,
    pub missing_value_strategy: Option<String>,
    pub no_true_child_strategy: Option<String>,
    pub mining_schema: Vec<RawMiningField>,
    pub output: Vec<RawOutputField>,
    pub targets: Vec<RawTarget>,
    pub root: RawNode,
    pub local_derived_fields: Vec<RawDerivedField>,
}

#[derive(Debug)]
pub struct RawNumericPredictor {
    pub name: String,
    pub exponent: i32,
    pub coefficient: Option<String>,
}

#[derive(Debug)]
pub struct RawCategoricalPredictor {
    pub name: String,
    pub value: String,
    pub coefficient: Option<String>,
}

#[derive(Debug)]
pub struct RawRegressionTable {
    pub intercept: Option<String>,
    pub target_category: Option<String>,
    pub numeric_predictors: Vec<RawNumericPredictor>,
    pub categorical_predictors: Vec<RawCategoricalPredictor>,
}

#[derive(Debug)]
pub struct RawRegressionModel {
    pub function_name: String,
    pub target_field_name: Option<String>,
    pub mining_schema: Vec<RawMiningField>,
    pub output: Vec<RawOutputField>,
    pub targets: Vec<RawTarget>,
    pub regression_tables: Vec<RawRegressionTable>,
    pub normalization_method: Option<String>,
    pub model_name: Option<String>,
    pub local_derived_fields: Vec<RawDerivedField>,
}

#[derive(Debug)]
pub struct RawSegment {
    pub id: Option<String>,
    pub predicate: RawPredicate,
    pub model: RawSegmentModel,
    pub weight: Option<String>,
}

#[derive(Debug)]
pub enum RawSegmentModel {
    Tree(RawTreeModel),
    Regression(RawRegressionModel),
}

#[derive(Debug)]
pub struct RawSegmentation {
    pub multiple_model_method: String,
    pub missing_prediction_treatment: Option<String>,
    pub segments: Vec<RawSegment>,
}

#[derive(Debug)]
pub struct RawMiningModel {
    pub function_name: String,
    pub mining_schema: Vec<RawMiningField>,
    pub segmentation: Option<RawSegmentation>,
    pub output: Vec<RawOutputField>,
    pub targets: Vec<RawTarget>,
    pub model_name: Option<String>,
    pub local_derived_fields: Vec<RawDerivedField>,
}

#[derive(Debug)]
pub struct RawAttribute {
    pub partial_score: Option<String>,
    pub predicate: RawPredicate,
    pub reason_code: Option<String>,
}

#[derive(Debug)]
pub struct RawCharacteristic {
    pub name: String,
    pub reason_code: Option<String>,
    pub baseline_score: Option<String>,
    pub attributes: Vec<RawAttribute>,
}

#[derive(Debug)]
pub struct RawScorecard {
    pub model_name: Option<String>,
    pub function_name: String,
    pub initial_score: Option<String>,
    pub use_reason_codes: Option<bool>,
    pub reason_code_algorithm: Option<String>,
    pub mining_schema: Vec<RawMiningField>,
    pub output: Vec<RawOutputField>,
    pub targets: Vec<RawTarget>,
    pub characteristics: Vec<RawCharacteristic>,
    pub baseline_method: Option<String>,
    pub local_derived_fields: Vec<RawDerivedField>,
}

#[derive(Debug)]
pub struct RawCluster {
    pub name: String,
    pub array: Vec<String>,
}

#[derive(Debug)]
pub struct RawComparisonMeasure {
    pub kind: String,
    pub compare_function: Option<String>,
}

#[derive(Debug)]
pub struct RawClusteringModel {
    pub model_name: Option<String>,
    pub function_name: String,
    pub model_class: Option<String>,
    pub number_of_clusters: Option<usize>,
    pub mining_schema: Vec<RawMiningField>,
    pub output: Vec<RawOutputField>,
    pub targets: Vec<RawTarget>,
    pub comparison_measure: Option<RawComparisonMeasure>,
    pub clustering_fields: Vec<String>,
    pub clusters: Vec<RawCluster>,
    pub local_derived_fields: Vec<RawDerivedField>,
}

#[derive(Debug)]
pub struct RawTargetValueCount {
    pub value: String,
    pub count: Option<String>,
}

#[derive(Debug)]
pub struct RawBayesInput {
    pub field_name: String,
    pub target_value_stats: Vec<RawTargetValueStat>,
    pub pair_counts: Vec<RawPairCounts>,
}

#[derive(Debug)]
pub struct RawTargetValueStat {
    pub value: String,
    pub gaussian_mean: Option<String>,
    pub gaussian_variance: Option<String>,
}

#[derive(Debug)]
pub struct RawPairCounts {
    pub value: String,
    pub target_counts: Vec<RawTargetValueCount>,
}

#[derive(Debug)]
pub struct RawNaiveBayesModel {
    pub function_name: String,
    pub threshold: Option<String>,
    pub mining_schema: Vec<RawMiningField>,
    pub output: Vec<RawOutputField>,
    pub targets: Vec<RawTarget>,
    pub bayes_inputs: Vec<RawBayesInput>,
    pub bayes_output_counts: Vec<RawTargetValueCount>,
    pub local_derived_fields: Vec<RawDerivedField>,
}

#[derive(Debug)]
pub struct RawInstanceField {
    pub field: String,
    pub column: String,
}

#[derive(Debug)]
pub struct RawNearestNeighborModel {
    pub function_name: String,
    pub number_of_neighbors: usize,
    pub mining_schema: Vec<RawMiningField>,
    pub output: Vec<RawOutputField>,
    pub targets: Vec<RawTarget>,
    pub instance_fields: Vec<RawInstanceField>,
    pub instances: Vec<TextMap>,
    pub knn_inputs: Vec<String>,
    pub local_derived_fields: Vec<RawDerivedField>,
}

#[derive(Debug)]
pub struct RawSupportVectorMachineModel {
    pub function_name: String,
    pub mining_schema: Vec<RawMiningField>,
    pub output: Vec<RawOutputField>,
    pub targets: Vec<RawTarget>,
    pub vector_fields: Vec<RawVectorField>,
    pub vector_instances: Vec<RawVectorInstance>,
    pub support_vector_machine: Option<RawSupportVectorMachine>,
    pub kernel_gamma: Option<String>,
    pub local_derived_fields: Vec<RawDerivedField>,
}

#[derive(Debug)]
pub struct RawNeuralNetwork {
    pub function_name: String,
    pub mining_schema: Vec<RawMiningField>,
    pub output: Vec<RawOutputField>,
    pub targets: Vec<RawTarget>,
    pub neural_inputs: Vec<RawNeuralInput>,
    pub neural_layers: Vec<RawNeuralLayer>,
    pub model_name: Option<String>,
    pub activation_function: Option<String>,
    pub local_derived_fields: Vec<RawDerivedField>,
}

#[derive(Debug)]
pub struct RawParameter {
    pub name: String,
    pub label: Option<String>,
}

#[derive(Debug)]
pub struct RawFactor {
    pub name: String,
    pub categories: Vec<String>,
    /// The words of each `Array` row of the contrast matrix, one entry per
    /// row read; a row that holds no number is the caller's to drop.
    pub matrix: Vec<Vec<String>>,
    pub contrast_type: Option<String>,
}

#[derive(Debug)]
pub struct RawPPCell {
    pub value: String,
    pub predictor_name: String,
    pub parameter_name: String,
}

#[derive(Debug)]
pub struct RawPCell {
    pub target_category: Option<String>,
    pub parameter_name: String,
    pub beta: Option<String>,
}

#[derive(Debug)]
pub struct RawGeneralRegressionModel {
    pub function_name: String,
    pub mining_schema: Vec<RawMiningField>,
    pub output: Vec<RawOutputField>,
    pub targets: Vec<RawTarget>,
    pub model_type: Option<String>,
    pub target_variable_name: Option<String>,
    pub target_reference_category: Option<String>,
    pub parameters: Vec<RawParameter>,
    pub factors: Vec<RawFactor>,
    pub covariates: Vec<String>,
    pub pp_matrix: Vec<RawPPCell>,
    pub param_matrix: Vec<RawPCell>,
    pub local_derived_fields: Vec<RawDerivedField>,
}

#[derive(Debug)]
pub struct RawItem {
    pub id: String,
    pub value: String,
}

#[derive(Debug)]
pub struct RawItemset {
    pub id: String,
    pub item_refs: Vec<String>,
}

#[derive(Debug)]
pub struct RawAssociationRule {
    pub antecedent: String,
    pub consequent: String,
    pub support: Option<String>,
    pub confidence: Option<String>,
    pub lift: Option<String>,
}

#[derive(Debug)]
pub struct RawAssociationModel {
    pub function_name: String,
    pub mining_schema: Vec<RawMiningField>,
    pub output: Vec<RawOutputField>,
    pub targets: Vec<RawTarget>,
    pub items: Vec<RawItem>,
    pub itemsets: Vec<RawItemset>,
    pub rules: Vec<RawAssociationRule>,
    pub local_derived_fields: Vec<RawDerivedField>,
}

#[derive(Debug)]
pub struct RawSimpleRule {
    pub id: Option<String>,
    pub score: String,
    pub predicate: RawPredicate,
}

#[derive(Debug)]
pub struct RawRuleSet {
    pub record_count: Option<String>,
    pub nb_correct: Option<String>,
    pub default_score: Option<String>,
    pub rules: Vec<RawSimpleRule>,
}

#[derive(Debug)]
pub struct RawRuleSetModel {
    pub function_name: String,
    pub mining_schema: Vec<RawMiningField>,
    pub output: Vec<RawOutputField>,
    pub targets: Vec<RawTarget>,
    pub rule_set: Option<RawRuleSet>,
    pub local_derived_fields: Vec<RawDerivedField>,
}

#[derive(Debug)]
pub struct RawCon {
    pub from: String,
    pub weight: Option<String>,
}

#[derive(Debug)]
pub struct RawNeuron {
    pub id: String,
    pub bias: Option<String>,
    pub cons: Vec<RawCon>,
}

#[derive(Debug)]
pub struct RawNeuralInput {
    pub id: String,
    pub field: String,
}

#[derive(Debug)]
pub struct RawNeuralLayer {
    pub number_of_neurons: Option<usize>,
    pub activation_function: Option<String>,
    pub neurons: Vec<RawNeuron>,
}

#[derive(Debug)]
pub struct RawSupportVector {
    pub vector_id: String,
}

#[derive(Debug)]
pub struct RawCoefficient {
    pub value: Option<String>,
}

#[derive(Debug)]
pub struct RawSupportVectorMachine {
    pub support_vectors: Vec<RawSupportVector>,
    pub coefficients: Vec<RawCoefficient>,
    pub absolute_value: Option<String>,
}

#[derive(Debug)]
pub struct RawVectorField {
    pub field: String,
}

/// A `REAL-SparseArray`: its length `n`, its parsed indices and its entry
/// texts.
#[derive(Debug)]
pub struct RawSparseArray {
    pub n: Option<usize>,
    pub indices: Vec<usize>,
    pub entries: Vec<String>,
}

/// A support vector: the last sparse array read, if any, and the words of the
/// dense arrays read after it.
#[derive(Debug)]
pub struct RawVectorInstance {
    pub id: String,
    pub sparse: Option<RawSparseArray>,
    pub array: Vec<String>,
}

#[derive(Debug)]
pub struct RawNode {
    pub id: Option<String>,
    pub score: Option<String>,
    pub record_count: Option<String>,
    pub predicate: RawPredicate,
    pub score_distributions: Vec<RawScoreDistribution>,
    pub children: Vec<RawNode>,
    pub default_child: Option<String>,
}

#[derive(Debug)]
pub enum RawPredicate {
    True,
    Simple {
        field: String,
        operator: String,
        value: String,
    },
    SimpleSet {
        field: String,
        boolean_operator: String, // isIn / isNotIn
        array: String,
    },
    Compound {
        boolean_operator: String, // and/or/xor/surrogate
        predicates: Vec<RawPredicate>,
    },
}

#[derive(Debug)]
pub struct RawScoreDistribution {
    pub value: String,
    pub record_count: Option<String>,
}

#[derive(Debug)]
pub struct RawExtension {
    pub extender: Option<String>,
    pub name: Option<String>,
    pub value: Option<String>,
    pub content: Option<String>,
}

#[derive(Debug)]
pub struct RawParameterField {
    pub name: String,
    pub data_type: Option<String>,
    pub op_type: Option<String>,
}

#[derive(Debug)]
pub struct RawLinearNorm {
    pub orig: Option<String>,
    pub norm: Option<String>,
}

#[derive(Debug)]
pub struct RawInterval {
    pub closure: String,
    pub left_margin: Option<String>,
    pub right_margin: Option<String>,
}

#[derive(Debug)]
pub struct RawDiscretizeBin {
    pub bin_value: String,
    pub interval: RawInterval,
}

#[derive(Debug)]
pub struct RawFieldColumnPair {
    pub field: String,
    pub column: String,
}

#[derive(Debug)]
pub struct RawDefineFunction {
    pub name: String,
    pub data_type: Option<String>,
    pub op_type: Option<String>,
    pub param_fields: Vec<RawParameterField>,
    pub derived_fields: Vec<RawDerivedField>,
    pub body: Option<RawExpression>,
}

#[derive(Debug)]
pub struct RawDerivedField {
    pub name: String,
    pub display_name: Option<String>,
    pub data_type: String,
    pub op_type: String,
    pub expression: RawExpression,
}

#[derive(Debug)]
pub enum RawExpression {
    Constant { data_type: Option<String>, value: String },
    FieldRef { field: String, map_missing_to: Option<String> },
    NormContinuous {
        field: String,
        map_missing_to: Option<String>,
        default_value: Option<String>,
        outliers: Option<String>,
        linear_norms: Vec<RawLinearNorm>,
    },
    NormDiscrete {
        field: String,
        value: String,
        map_missing_to: Option<String>,
        default_value: Option<String>,
    },
    Discretize {
        field: String,
        map_missing_to: Option<String>,
        default_value: Option<String>,
        data_type: Option<String>,
        bins: Vec<RawDiscretizeBin>,
    },
    MapValues {
        map_missing_to: Option<String>,
        default_value: Option<String>,
        output_column: String,
        field_column_pairs: Vec<RawFieldColumnPair>,
        inline_table: Vec<TextMap>,
    },
    TextIndex {
        field: String,
        map_missing_to: Option<String>,
        text: Box<RawExpression>,
        search_term: Box<RawExpression>,
        is_case_sensitive: bool,
        max_levenstein_distance: Option<usize>,
        word_separator: Option<String>,
        tokenize: bool,
    },
    Aggregate {
        field: String,
        function: String,
        group_field: Option<String>,
    },
    Apply {
        function: String,
        map_missing_to: Option<String>,
        default_value: Option<String>,
        args: Vec<RawExpression>,
    },
    Unknown,
}

#[derive(Debug)]
pub struct RawPmml {
    pub data_dictionary: Vec<RawDataField>,
    pub tree_model: Option<RawTreeModel>,
    pub regression_model: Option<RawRegressionModel>,
    pub mining_model: Option<RawMiningModel>,
    pub scorecard: Option<RawScorecard>,
    pub clustering_model: Option<RawClusteringModel>,
    pub naive_bayes_model: Option<RawNaiveBayesModel>,
    pub nearest_neighbor_model: Option<RawNearestNeighborModel>,
    pub support_vector_machine_model: Option<RawSupportVectorMachineModel>,
    pub neural_network: Option<RawNeuralNetwork>,
    pub general_regression_model: Option<RawGeneralRegressionModel>,
    pub association_model: Option<RawAssociationModel>,
    pub rule_set_model: Option<RawRuleSetModel>,
    /// TransformationDictionary derived fields (global)
    pub transformation_dictionary: Vec<RawDerivedField>,
    /// TransformationDictionary define functions
    pub define_functions: Vec<RawDefineFunction>,
    /// Vendor extensions (gracefully stored, not yet evaluated)
    pub extensions: Vec<RawExtension>,
    /// Unsupported model tag if PMML contains e.g. AnomalyDetectionModel, BaselineModel, etc.
    pub unsupported_model: Option<String>,
}

} // verus!

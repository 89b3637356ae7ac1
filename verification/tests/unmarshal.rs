use pmmlruntime::error::PmmlError;
use pmmlruntime::unmarshal;
use pmmlruntime::unmarshal::raw::{RawExpression, RawPredicate, RawSegmentModel};
use pmmlruntime::unmarshal::unmarshal_events;
use pmmlruntime::xml::XmlEvent;

fn is_missing_attr(e: &PmmlError, ctx: &str, key: &str) -> bool {
    match e {
        PmmlError::ParseError { context, message } => {
            context == ctx && message == &format!("missing attribute {}", key)
        }
        _ => false,
    }
}

#[test]
fn unmarshal_xxe_blocked() {
    let xxe = br#"<?xml version="1.0"?>
<!DOCTYPE foo [ <!ENTITY xxe SYSTEM "file:///etc/passwd"> ]>
<PMML version="4.4"><Header/><DataDictionary><DataField name="f" dataType="string" optype="categorical"/></DataDictionary><TreeModel functionName="classification"><MiningSchema><MiningField name="f"/></MiningSchema><Node score="a"><True/></Node></TreeModel></PMML>"#;
    let res = unmarshal(xxe);
    match res {
        Ok(raw) => {
            assert!(raw.data_dictionary.iter().all(|df| !df.name.contains("root:")));
        }
        Err(e) => {
            assert!(!e.message().contains("root:"));
        }
    }
}

#[test]
fn depth_limit_enforced() {
    let xml = String::from("<PMML version=\"4.4\"><Header/><DataDictionary><DataField name=\"f\" dataType=\"string\" optype=\"categorical\"/></DataDictionary><TreeModel functionName=\"classification\"><MiningSchema><MiningField name=\"f\"/></MiningSchema><Node score=\"a\"><True/></Node></TreeModel>");
    let bytes = xml.into_bytes();
    let res = unmarshal(&bytes);
    assert!(res.is_ok(), "normal depth should be ok: {:?}", res.err());
}

#[test]
fn data_dictionary_example() {
    let xml = br#"<PMML version="4.4"><Header/><DataDictionary><DataField name="x" dataType="double" optype="continuous"/></DataDictionary><TreeModel functionName="classification"><MiningSchema><MiningField name="x"/></MiningSchema><Node score="a"><True/></Node></TreeModel></PMML>"#;
    let raw = unmarshal(xml).unwrap();
    assert_eq!(raw.data_dictionary.len(), 1);
    assert_eq!(raw.data_dictionary[0].name, "x");
    assert_eq!(raw.data_dictionary[0].data_type, "double");
    assert_eq!(raw.data_dictionary[0].op_type, "continuous");
}

const IRIS: &str = r#"<?xml version="1.0" encoding="UTF-8"?>
<PMML xmlns="http://www.dmg.org/PMML-4_4" version="4.4">
  <Header/>
  <DataDictionary>
    <DataField name="Petal.Length" optype="continuous" dataType="double"/>
    <DataField name="Petal.Width" optype="continuous" dataType="double"/>
    <DataField name="Species" optype="categorical" dataType="string">
      <Value value="setosa"/>
      <Value value="versicolor"/>
      <Value value="virginica"/>
    </DataField>
  </DataDictionary>
  <TreeModel functionName="classification" missingValueStrategy="nullPrediction">
    <MiningSchema>
      <MiningField name="Species" usageType="target"/>
      <MiningField name="Petal.Length"/>
      <MiningField name="Petal.Width"/>
    </MiningSchema>
    <Node id="1" score="setosa">
      <True/>
      <Node id="2" score="setosa">
        <SimplePredicate field="Petal.Length" operator="lessThan" value="2.45"/>
      </Node>
      <Node id="3" score="versicolor">
        <SimplePredicate field="Petal.Length" operator="greaterOrEqual" value="2.45"/>
        <ScoreDistribution value="versicolor" recordCount="50"/>
      </Node>
    </Node>
  </TreeModel>
</PMML>"#;

#[test]
fn iris_tree_model() {
    let raw = unmarshal(IRIS.as_bytes()).unwrap();
    assert_eq!(raw.data_dictionary.len(), 3);
    assert_eq!(raw.data_dictionary[2].values, vec!["setosa", "versicolor", "virginica"]);
    let tm = raw.tree_model.expect("tree model");
    assert_eq!(tm.function_name, "classification");
    assert_eq!(tm.missing_value_strategy.as_deref(), Some("nullPrediction"));
    assert_eq!(tm.mining_schema.len(), 3);
    assert_eq!(tm.mining_schema[0].usage_type.as_deref(), Some("target"));
    assert_eq!(tm.root.children.len(), 2);
    assert!(matches!(tm.root.predicate, RawPredicate::True));
    match &tm.root.children[0].predicate {
        RawPredicate::Simple { field, operator, value } => {
            assert_eq!(field, "Petal.Length");
            assert_eq!(operator, "lessThan");
            assert_eq!(value, "2.45");
        }
        other => panic!("unexpected predicate {:?}", other),
    }
    assert_eq!(tm.root.children[1].score_distributions.len(), 1);
    assert!(raw.unsupported_model.is_none());
}

#[test]
fn data_field_defaults() {
    let xml = br#"<PMML><DataDictionary><DataField name="f"/></DataDictionary></PMML>"#;
    let raw = unmarshal(xml).unwrap();
    assert_eq!(raw.data_dictionary[0].data_type, "string");
    assert_eq!(raw.data_dictionary[0].op_type, "categorical");
}

#[test]
fn data_field_without_name_is_an_error() {
    let xml = br#"<PMML><DataDictionary><DataField dataType="double"/></DataDictionary></PMML>"#;
    let e = unmarshal(xml).unwrap_err();
    assert!(is_missing_attr(&e, "DataField", "name"), "{:?}", e);
}

#[test]
fn model_without_function_name_is_an_error() {
    let xml = br#"<PMML><RegressionModel><MiningSchema/></RegressionModel></PMML>"#;
    let e = unmarshal(xml).unwrap_err();
    assert!(is_missing_attr(&e, "RegressionModel", "functionName"), "{:?}", e);
}

#[test]
fn unsupported_models_are_recorded_and_skipped() {
    let xml = br#"<PMML><DataDictionary><DataField name="a"/></DataDictionary><BaselineModel functionName="regression"><BaselineModel/><DataField name="inner"/></BaselineModel><DataDictionary><DataField name="b"/></DataDictionary></PMML>"#;
    let raw = unmarshal(xml).unwrap();
    assert_eq!(raw.unsupported_model.as_deref(), Some("BaselineModel"));
    let names: Vec<&str> = raw.data_dictionary.iter().map(|f| f.name.as_str()).collect();
    assert_eq!(names, vec!["a", "b"]);
}

#[test]
fn any_model_suffix_is_unsupported_first_one_wins() {
    let xml = br#"<PMML><FancyModel/><TextModel/></PMML>"#;
    let raw = unmarshal(xml).unwrap();
    assert_eq!(raw.unsupported_model.as_deref(), Some("FancyModel"));
}

#[test]
fn extension_content_is_collected() {
    let xml = br#"<PMML><Extension extender="acme" name="k" value="v">hello <b/>world</Extension><Extension name="empty"/></PMML>"#;
    let raw = unmarshal(xml).unwrap();
    assert_eq!(raw.extensions.len(), 2);
    assert_eq!(raw.extensions[0].extender.as_deref(), Some("acme"));
    assert_eq!(raw.extensions[0].value.as_deref(), Some("v"));
    assert_eq!(raw.extensions[0].content.as_deref(), Some("helloworld"));
    assert_eq!(raw.extensions[1].name.as_deref(), Some("empty"));
    assert!(raw.extensions[1].content.is_none());
}

#[test]
fn oversized_document_is_rejected() {
    let big = vec![b' '; 100 * 1024 * 1024 + 1];
    match unmarshal(&big) {
        Err(PmmlError::ValidationError(m)) => assert!(m.contains("too large")),
        other => panic!("unexpected {:?}", other.err()),
    }
}

#[test]
fn malformed_top_level_is_a_parse_error() {
    let e = unmarshal(b"<PMML></Wrong>").unwrap_err();
    match e {
        PmmlError::ParseError { context, .. } => assert_eq!(context, "xml"),
        other => panic!("unexpected {:?}", other),
    }
}

#[test]
fn empty_event_stream_gives_empty_document() {
    let raw = unmarshal_events(&Vec::new()).unwrap();
    assert!(raw.data_dictionary.is_empty());
    assert!(raw.tree_model.is_none());
    assert!(raw.unsupported_model.is_none());
}

#[test]
fn first_event_error_fails_with_its_message() {
    let ev = vec![XmlEvent::Error("boom".to_string())];
    match unmarshal_events(&ev) {
        Err(PmmlError::ParseError { context, message }) => {
            assert_eq!(context, "xml");
            assert_eq!(message, "boom");
        }
        other => panic!("unexpected {:?}", other.err()),
    }
}

#[test]
fn regression_model_tables() {
    let xml = br#"<PMML><RegressionModel functionName="regression" modelName="lm" normalizationMethod="none">
<MiningSchema><MiningField name="x"/><MiningField name="y" usageType="target"/></MiningSchema>
<RegressionTable intercept="1.5"><NumericPredictor name="x" coefficient="2" exponent="2"/><CategoricalPredictor name="c" value="a" coefficient="0.5"/></RegressionTable>
</RegressionModel></PMML>"#;
    let raw = unmarshal(xml).unwrap();
    let rm = raw.regression_model.expect("regression model");
    assert_eq!(rm.function_name, "regression");
    assert_eq!(rm.model_name.as_deref(), Some("lm"));
    assert_eq!(rm.mining_schema.len(), 2);
    assert_eq!(rm.regression_tables.len(), 1);
    let t = &rm.regression_tables[0];
    assert_eq!(t.intercept.as_deref(), Some("1.5"));
    assert_eq!(t.numeric_predictors[0].exponent, 2);
    assert_eq!(t.categorical_predictors[0].value, "a");
}

#[test]
fn mining_model_segments() {
    let xml = br#"<PMML><MiningModel functionName="regression"><MiningSchema><MiningField name="x"/></MiningSchema>
<Segmentation multipleModelMethod="sum">
<Segment id="s1" weight="2"><True/><TreeModel functionName="regression"><MiningSchema><MiningField name="x"/></MiningSchema><Node score="1"><True/></Node></TreeModel></Segment>
<Segment id="s2"><True/><RegressionModel functionName="regression"><RegressionTable intercept="3"/></RegressionModel></Segment>
</Segmentation></MiningModel></PMML>"#;
    let raw = unmarshal(xml).unwrap();
    let mm = raw.mining_model.expect("mining model");
    let seg = mm.segmentation.expect("segmentation");
    assert_eq!(seg.multiple_model_method, "sum");
    assert_eq!(seg.segments.len(), 2);
    assert_eq!(seg.segments[0].weight.as_deref(), Some("2"));
    assert!(matches!(seg.segments[0].model, RawSegmentModel::Tree(_)));
    assert!(matches!(seg.segments[1].model, RawSegmentModel::Regression(_)));
}

#[test]
fn neural_network_layers_and_inputs() {
    let xml = br#"<PMML><NeuralNetwork functionName="regression" activationFunction="logistic">
<MiningSchema><MiningField name="x"/></MiningSchema>
<NeuralInputs><NeuralInput id="0"><DerivedField optype="continuous" dataType="double"><FieldRef field="x"/></DerivedField></NeuralInput></NeuralInputs>
<NeuralLayer numberOfNeurons="1"><Neuron id="1" bias="0.5"><Con from="0" weight="2"/></Neuron></NeuralLayer>
<NeuralLayer activationFunction="identity"><Neuron id="2"><Con from="1"/></Neuron></NeuralLayer>
</NeuralNetwork></PMML>"#;
    let raw = unmarshal(xml).unwrap();
    let nn = raw.neural_network.expect("neural network");
    assert_eq!(nn.function_name, "regression");
    assert_eq!(nn.neural_inputs.len(), 1);
    assert_eq!(nn.neural_inputs[0].field, "x");
    assert_eq!(nn.neural_layers.len(), 2);
    assert_eq!(nn.neural_layers[0].number_of_neurons, Some(1));
    assert_eq!(nn.neural_layers[0].activation_function.as_deref(), Some("logistic"));
    assert_eq!(nn.neural_layers[1].activation_function.as_deref(), Some("identity"));
    assert_eq!(nn.neural_layers[0].neurons[0].bias.as_deref(), Some("0.5"));
    assert_eq!(nn.neural_layers[0].neurons[0].cons[0].weight.as_deref(), Some("2"));
    assert!(nn.neural_layers[1].neurons[0].cons[0].weight.is_none());
}

#[test]
fn neuron_without_id_is_an_error() {
    let xml = br#"<PMML><NeuralNetwork functionName="regression"><NeuralLayer><Neuron/></NeuralLayer></NeuralNetwork></PMML>"#;
    let e = unmarshal(xml).unwrap_err();
    assert!(is_missing_attr(&e, "Neuron", "id"), "{:?}", e);
}

#[test]
fn association_model_items_and_rules() {
    let xml = br#"<PMML><AssociationModel functionName="associationRules">
<Item id="1" value="beer"/><Item id="2" value="chips"/>
<Itemset id="a"><ItemRef itemRef="1"/></Itemset><Itemset id="b"><ItemRef itemRef="2"/></Itemset>
<AssociationRule antecedent="a" consequent="b" support="0.2" confidence="0.8"/>
</AssociationModel></PMML>"#;
    let raw = unmarshal(xml).unwrap();
    let am = raw.association_model.expect("association model");
    assert_eq!(am.items.len(), 2);
    assert_eq!(am.items[1].value, "chips");
    assert_eq!(am.itemsets.len(), 2);
    assert_eq!(am.itemsets[0].item_refs, vec!["1"]);
    assert_eq!(am.rules.len(), 1);
    assert_eq!(am.rules[0].confidence.as_deref(), Some("0.8"));
    assert!(am.rules[0].lift.is_none());
}

#[test]
fn association_rule_without_consequent_is_an_error() {
    let xml = br#"<PMML><AssociationModel functionName="associationRules"><AssociationRule antecedent="a"/></AssociationModel></PMML>"#;
    let e = unmarshal(xml).unwrap_err();
    assert!(is_missing_attr(&e, "AssociationRule", "consequent"), "{:?}", e);
}

#[test]
fn rule_set_model_rules() {
    let xml = br#"<PMML><RuleSetModel functionName="classification"><RuleSet defaultScore="no">
<SimpleRule id="r1" score="yes"><SimplePredicate field="x" operator="greaterThan" value="1"/></SimpleRule>
<SimpleRule score="maybe"><CompoundPredicate booleanOperator="and"><SimplePredicate field="x" operator="lessThan" value="5"/><SimplePredicate field="y" operator="equal" value="a"/></CompoundPredicate></SimpleRule>
<SimpleRule score="always"><True/></SimpleRule>
</RuleSet></RuleSetModel></PMML>"#;
    let raw = unmarshal(xml).unwrap();
    let rs = raw.rule_set_model.expect("rule set model").rule_set.expect("rule set");
    assert_eq!(rs.default_score.as_deref(), Some("no"));
    assert_eq!(rs.rules.len(), 3);
    assert_eq!(rs.rules[0].id.as_deref(), Some("r1"));
    assert!(matches!(rs.rules[0].predicate, RawPredicate::Simple { .. }));
    match &rs.rules[1].predicate {
        RawPredicate::Compound { boolean_operator, predicates } => {
            assert_eq!(boolean_operator, "and");
            assert_eq!(predicates.len(), 2);
        }
        other => panic!("unexpected {:?}", other),
    }
    assert!(matches!(rs.rules[2].predicate, RawPredicate::True));
}

#[test]
fn simple_rule_without_score_is_an_error() {
    let xml = br#"<PMML><RuleSetModel functionName="classification"><RuleSet><SimpleRule/></RuleSet></RuleSetModel></PMML>"#;
    let e = unmarshal(xml).unwrap_err();
    assert!(is_missing_attr(&e, "SimpleRule", "score"), "{:?}", e);
}

#[test]
fn unclosed_rule_set_is_an_unexpected_end() {
    let xml = br#"<PMML><RuleSetModel functionName="classification"><RuleSet>"#;
    match unmarshal(xml) {
        Err(PmmlError::ParseError { context, message }) => {
            assert_eq!(context, "xml");
            assert_eq!(message, "unexpected end of document");
        }
        other => panic!("unexpected {:?}", other.err()),
    }
}

#[test]
fn transformation_dictionary_and_local_transformations() {
    let xml = br#"<PMML><TransformationDictionary>
<DefineFunction name="f" optype="continuous"><ParameterField name="p"/><FieldRef field="p"/></DefineFunction>
<DerivedField name="d" optype="continuous" dataType="double"><Constant>1</Constant></DerivedField>
</TransformationDictionary>
<LocalTransformations><DerivedField name="e" optype="continuous" dataType="double"><FieldRef field="x"/></DerivedField></LocalTransformations></PMML>"#;
    let raw = unmarshal(xml).unwrap();
    assert_eq!(raw.define_functions.len(), 1);
    assert_eq!(raw.transformation_dictionary.len(), 2);
    assert_eq!(raw.transformation_dictionary[0].name, "d");
    assert_eq!(raw.transformation_dictionary[1].name, "e");
}

#[test]
fn nearest_neighbor_instances_skip_empty_rows() {
    let xml = br#"<PMML><NearestNeighborModel functionName="classification" numberOfNeighbors="3">
<TrainingInstances><InstanceFields><InstanceField field="x" column="x"/></InstanceFields>
<InlineTable><row><x>1</x><y>a</y></row><row></row><row><x>2</x></row></InlineTable></TrainingInstances>
<KNNInputs><KNNInput field="x"/></KNNInputs>
</NearestNeighborModel></PMML>"#;
    let raw = unmarshal(xml).unwrap();
    let nn = raw.nearest_neighbor_model.expect("knn model");
    assert_eq!(nn.number_of_neighbors, 3);
    assert_eq!(nn.instances.len(), 2);
    assert_eq!(nn.instances[0].get("x").map(|s| s.as_str()), Some("1"));
    assert_eq!(nn.instances[0].get("y").map(|s| s.as_str()), Some("a"));
    assert_eq!(nn.instances[0].len(), 2);
    assert_eq!(nn.instances[1].get("x").map(|s| s.as_str()), Some("2"));
    assert_eq!(nn.knn_inputs, vec!["x"]);
}

#[test]
fn nearest_neighbor_defaults_to_one_neighbor() {
    let xml = br#"<PMML><NearestNeighborModel functionName="regression"/></PMML>"#;
    let raw = unmarshal(xml).unwrap();
    assert_eq!(raw.nearest_neighbor_model.expect("knn").number_of_neighbors, 1);
}

#[test]
fn general_regression_lists() {
    let xml = br#"<PMML><GeneralRegressionModel functionName="regression" modelType="generalLinear" targetVariableName="y">
<MiningSchema><MiningField name="x"/><MiningField name="c"/></MiningSchema>
<ParameterList><Parameter name="p0" label="Intercept"/><Parameter name="p1"/></ParameterList>
<FactorList><Predictor name="c" contrastMatrixType="simple"><Categories><Category value="a"/><Category/><Category value="b"/></Categories>
<Matrix><Array type="real">1 0</Array><Array type="real">0 1</Array></Matrix></Predictor></FactorList>
<CovariateList><Predictor name="x"/></CovariateList>
<PPMatrix><PPCell value="1" predictorName="x" parameterName="p1"/></PPMatrix>
<ParamMatrix><PCell parameterName="p0" beta="0.5"/><PCell parameterName="p1" beta="2" targetCategory="t"/></ParamMatrix>
</GeneralRegressionModel></PMML>"#;
    let raw = unmarshal(xml).unwrap();
    let g = raw.general_regression_model.expect("general regression model");
    assert_eq!(g.model_type.as_deref(), Some("generalLinear"));
    assert_eq!(g.target_variable_name.as_deref(), Some("y"));
    assert_eq!(g.mining_schema.len(), 2);
    assert_eq!(g.parameters.len(), 2);
    assert_eq!(g.parameters[0].name, "p0");
    assert_eq!(g.parameters[0].label.as_deref(), Some("Intercept"));
    assert_eq!(g.parameters[1].label, None);
    assert_eq!(g.factors.len(), 1);
    assert_eq!(g.factors[0].name, "c");
    assert_eq!(g.factors[0].contrast_type.as_deref(), Some("simple"));
    assert_eq!(g.factors[0].categories, vec!["a", "b"]);
    assert_eq!(g.factors[0].matrix, vec![vec!["1", "0"], vec!["0", "1"]]);
    assert_eq!(g.covariates, vec!["x"]);
    assert_eq!(g.pp_matrix.len(), 1);
    assert_eq!(g.pp_matrix[0].predictor_name, "x");
    assert_eq!(g.pp_matrix[0].parameter_name, "p1");
    assert_eq!(g.param_matrix.len(), 2);
    assert_eq!(g.param_matrix[0].beta.as_deref(), Some("0.5"));
    assert_eq!(g.param_matrix[0].target_category, None);
    assert_eq!(g.param_matrix[1].target_category.as_deref(), Some("t"));
}

#[test]
fn general_regression_parameter_without_name_is_an_error() {
    let xml = br#"<PMML><GeneralRegressionModel functionName="regression"><ParameterList><Parameter label="x"/></ParameterList></GeneralRegressionModel></PMML>"#;
    let e = unmarshal(xml).unwrap_err();
    assert!(is_missing_attr(&e, "Parameter", "name"));
}

#[test]
fn support_vector_machine_parts() {
    let xml = br#"<PMML><SupportVectorMachineModel functionName="classification">
<MiningSchema><MiningField name="x"/></MiningSchema>
<RadialBasisKernelType gamma="0.25"/>
<VectorDictionary numberOfVectors="1"><VectorFields><FieldRef field="x"/></VectorFields>
<VectorInstance id="v1"><Array type="real">1.5</Array></VectorInstance></VectorDictionary>
<SupportVectorMachine><SupportVectors><SupportVector vectorId="v1"/></SupportVectors>
<Coefficients absoluteValue="0.1"><Coefficient value="2"/><Coefficient/></Coefficients></SupportVectorMachine>
</SupportVectorMachineModel></PMML>"#;
    let raw = unmarshal(xml).unwrap();
    let s = raw.support_vector_machine_model.expect("svm model");
    assert_eq!(s.kernel_gamma.as_deref(), Some("0.25"));
    assert_eq!(s.vector_fields.len(), 1);
    assert_eq!(s.vector_instances.len(), 1);
    assert_eq!(s.vector_instances[0].id, "v1");
    let m = s.support_vector_machine.expect("machine");
    assert_eq!(m.support_vectors.len(), 1);
    assert_eq!(m.support_vectors[0].vector_id, "v1");
    assert_eq!(m.coefficients.len(), 2);
    assert_eq!(m.coefficients[0].value.as_deref(), Some("2"));
    assert_eq!(m.coefficients[1].value, None);
    assert_eq!(m.absolute_value.as_deref(), Some("0.1"));
}

#[test]
fn support_vector_without_id_is_an_error() {
    let xml = br#"<PMML><SupportVectorMachineModel functionName="classification"><SupportVectorMachine><SupportVectors><SupportVector/></SupportVectors></SupportVectorMachine></SupportVectorMachineModel></PMML>"#;
    let e = unmarshal(xml).unwrap_err();
    assert!(is_missing_attr(&e, "SupportVector", "vectorId"));
}

#[test]
fn naive_bayes_gaussian_statistics() {
    let xml = br#"<PMML><NaiveBayesModel functionName="classification" threshold="0.001">
<MiningSchema><MiningField name="x"/><MiningField name="y" usageType="target"/></MiningSchema>
<BayesInputs><BayesInput fieldName="x"><TargetValueStats>
<TargetValueStat value="a"><GaussianDistribution mean="1" variance="2"/></TargetValueStat>
<TargetValueStat value="b"/>
</TargetValueStats></BayesInput></BayesInputs>
<BayesOutput fieldName="y"><TargetValueCounts><TargetValueCount value="a" count="3"/></TargetValueCounts></BayesOutput>
</NaiveBayesModel></PMML>"#;
    let raw = unmarshal(xml).unwrap();
    let nb = raw.naive_bayes_model.expect("naive bayes model");
    assert_eq!(nb.threshold.as_deref(), Some("0.001"));
    assert_eq!(nb.bayes_inputs.len(), 1);
    let stats = &nb.bayes_inputs[0].target_value_stats;
    assert_eq!(stats.len(), 2);
    assert_eq!(stats[0].value, "a");
    assert_eq!(stats[0].gaussian_mean.as_deref(), Some("1"));
    assert_eq!(stats[0].gaussian_variance.as_deref(), Some("2"));
    assert_eq!(stats[1].gaussian_mean, None);
    assert_eq!(nb.bayes_output_counts.len(), 1);
    assert_eq!(nb.bayes_output_counts[0].count.as_deref(), Some("3"));
}

#[test]
fn clustering_comparison_measure_kind_defaults_to_distance() {
    let xml = br#"<PMML><ClusteringModel functionName="clustering" modelClass="centerBased" numberOfClusters="1">
<ComparisonMeasure><squaredEuclidean/></ComparisonMeasure>
<ClusteringField field="x"/><Cluster name="c1"><Array type="real">1 2</Array></Cluster>
</ClusteringModel></PMML>"#;
    let raw = unmarshal(xml).unwrap();
    let c = raw.clustering_model.expect("clustering model");
    let cm = c.comparison_measure.expect("comparison measure");
    assert_eq!(cm.kind, "distance");
    assert_eq!(c.number_of_clusters, Some(1));
    assert_eq!(c.clusters[0].array, vec!["1", "2"]);
}

#[test]
fn expressions_keep_their_parts() {
    let xml = br#"<PMML><TransformationDictionary>
<DerivedField name="a" optype="continuous"><Apply function="+"><FieldRef field="x"/><Constant>2</Constant></Apply></DerivedField>
<DerivedField name="n" optype="continuous"><NormContinuous field="x"><LinearNorm orig="0" norm="0"/><LinearNorm orig="10" norm="1"/></NormContinuous></DerivedField>
<DerivedField name="d" optype="categorical"><Discretize field="x"><DiscretizeBin binValue="low"><Interval closure="openClosed" rightMargin="5"/></DiscretizeBin><DiscretizeBin binValue="high"/></Discretize></DerivedField>
<DerivedField name="m" optype="categorical"><MapValues outputColumn="out"><FieldColumnPair field="x" column="in"/><InlineTable><row><in>1</in><out>one</out></row></InlineTable></MapValues></DerivedField>
</TransformationDictionary></PMML>"#;
    let raw = unmarshal(xml).unwrap();
    let fields = &raw.transformation_dictionary;
    assert_eq!(fields.len(), 4);
    match &fields[0].expression {
        RawExpression::Apply { function, args, .. } => {
            assert_eq!(function, "+");
            assert_eq!(args.len(), 2);
            assert!(matches!(&args[0], RawExpression::FieldRef { field, .. } if field == "x"));
            assert!(matches!(&args[1], RawExpression::Constant { value, .. } if value == "2"));
        }
        other => panic!("unexpected {:?}", other),
    }
    match &fields[1].expression {
        RawExpression::NormContinuous { linear_norms, .. } => {
            assert_eq!(linear_norms.len(), 2);
            assert_eq!(linear_norms[1].orig.as_deref(), Some("10"));
            assert_eq!(linear_norms[1].norm.as_deref(), Some("1"));
        }
        other => panic!("unexpected {:?}", other),
    }
    match &fields[2].expression {
        RawExpression::Discretize { bins, .. } => {
            assert_eq!(bins.len(), 2);
            assert_eq!(bins[0].bin_value, "low");
            assert_eq!(bins[0].interval.closure, "openClosed");
            assert_eq!(bins[1].bin_value, "high");
        }
        other => panic!("unexpected {:?}", other),
    }
    match &fields[3].expression {
        RawExpression::MapValues { output_column, field_column_pairs, inline_table, .. } => {
            assert_eq!(output_column, "out");
            assert_eq!(field_column_pairs.len(), 1);
            assert_eq!(field_column_pairs[0].column, "in");
            assert_eq!(inline_table.len(), 1);
            assert_eq!(inline_table[0].get("out").map(|s| s.as_str()), Some("one"));
        }
        other => panic!("unexpected {:?}", other),
    }
}

#[test]
fn tree_node_predicates() {
    let xml = br#"<PMML><TreeModel functionName="classification"><Node score="root"><True/>
<Node id="1" score="a"><SimplePredicate field="x" operator="lessThan" value="3"/></Node>
<Node id="2" score="b"><CompoundPredicate booleanOperator="or"><SimplePredicate field="x" operator="equal" value="5"/><True/></CompoundPredicate></Node>
</Node></TreeModel></PMML>"#;
    let raw = unmarshal(xml).unwrap();
    let t = raw.tree_model.expect("tree model");
    let root = &t.root;
    assert!(matches!(root.predicate, RawPredicate::True));
    assert_eq!(root.children.len(), 2);
    match &root.children[0].predicate {
        RawPredicate::Simple { field, operator, value } => {
            assert_eq!(field, "x");
            assert_eq!(operator, "lessThan");
            assert_eq!(value, "3");
        }
        other => panic!("unexpected {:?}", other),
    }
    match &root.children[1].predicate {
        RawPredicate::Compound { boolean_operator, predicates } => {
            assert_eq!(boolean_operator, "or");
            assert_eq!(predicates.len(), 2);
        }
        other => panic!("unexpected {:?}", other),
    }
}

#[test]
fn tree_nested_compound_predicate() {
    let xml = br#"<PMML><TreeModel functionName="classification"><Node score="root"><CompoundPredicate booleanOperator="and"><SimplePredicate field="x" operator="lessThan" value="3"/><CompoundPredicate booleanOperator="or"><True/><SimplePredicate field="y" operator="equal" value="a"/></CompoundPredicate><SimplePredicate field="z" operator="greaterThan" value="1"/></CompoundPredicate></Node></TreeModel></PMML>"#;
    let raw = unmarshal(xml).unwrap();
    let root = raw.tree_model.expect("tree model").root;
    match &root.predicate {
        RawPredicate::Compound { boolean_operator, predicates } => {
            assert_eq!(boolean_operator, "and");
            assert_eq!(predicates.len(), 3);
            assert!(matches!(&predicates[0], RawPredicate::Simple { field, .. } if field == "x"));
            match &predicates[1] {
                RawPredicate::Compound { boolean_operator, predicates } => {
                    assert_eq!(boolean_operator, "or");
                    assert_eq!(predicates.len(), 2);
                    assert!(matches!(predicates[0], RawPredicate::True));
                    assert!(matches!(&predicates[1], RawPredicate::Simple { field, .. } if field == "y"));
                }
                other => panic!("unexpected {:?}", other),
            }
            assert!(matches!(&predicates[2], RawPredicate::Simple { field, .. } if field == "z"));
        }
        other => panic!("unexpected {:?}", other),
    }
}

#[test]
fn node_keeps_default_child() {
    let xml = br#"<PMML version="4.4"><DataDictionary/><TreeModel functionName="classification"><Node id='1' defaultChild='2'><True/><Node id='2' score='a'><True/></Node></Node></TreeModel></PMML>"#;
    let raw = unmarshal(xml).unwrap();
    let root = raw.tree_model.expect("tree model").root;
    assert_eq!(root.id.as_deref(), Some("1"));
    assert_eq!(root.default_child.as_deref(), Some("2"));
    assert!(matches!(root.predicate, RawPredicate::True));
    assert_eq!(root.children.len(), 1);
    assert_eq!(root.children[0].id.as_deref(), Some("2"));
    assert_eq!(root.children[0].score.as_deref(), Some("a"));
    assert_eq!(root.children[0].default_child, None);
}

#[test]
fn naive_bayes_pair_counts_and_output_counts() {
    let xml = br#"<PMML><NaiveBayesModel functionName='c'><BayesInputs><BayesInput fieldName='x'><PairCounts value='a'><TargetValueCounts><TargetValueCount value='y' count='3'/></TargetValueCounts></PairCounts></BayesInput></BayesInputs><BayesOutput><TargetValueCounts><TargetValueCount value='y' count='10'/></TargetValueCounts></BayesOutput></NaiveBayesModel></PMML>"#;
    let nb = unmarshal(xml).unwrap().naive_bayes_model.expect("naive bayes model");
    assert_eq!(nb.function_name, "c");
    assert_eq!(nb.threshold, None);
    assert_eq!(nb.bayes_inputs.len(), 1);
    assert_eq!(nb.bayes_inputs[0].field_name, "x");
    assert!(nb.bayes_inputs[0].target_value_stats.is_empty());
    assert_eq!(nb.bayes_inputs[0].pair_counts.len(), 1);
    assert_eq!(nb.bayes_inputs[0].pair_counts[0].value, "a");
    assert_eq!(nb.bayes_inputs[0].pair_counts[0].target_counts.len(), 1);
    assert_eq!(nb.bayes_inputs[0].pair_counts[0].target_counts[0].value, "y");
    assert_eq!(nb.bayes_inputs[0].pair_counts[0].target_counts[0].count.as_deref(), Some("3"));
    assert_eq!(nb.bayes_output_counts.len(), 1);
    assert_eq!(nb.bayes_output_counts[0].count.as_deref(), Some("10"));
    assert!(nb.mining_schema.is_empty());
}

#[test]
fn naive_bayes_input_wrapped_in_extension_reads_the_same() {
    let plain = br#"<PMML><NaiveBayesModel functionName='c'><BayesInputs><BayesInput fieldName='f'><TargetValueStats><TargetValueStat value='a'><GaussianDistribution mean='1' variance='2'/></TargetValueStat></TargetValueStats></BayesInput></BayesInputs></NaiveBayesModel></PMML>"#;
    let wrapped = br#"<PMML><NaiveBayesModel functionName='c'><BayesInputs><Extension><BayesInput fieldName='f'><TargetValueStats><TargetValueStat value='a'><GaussianDistribution mean='1' variance='2'/></TargetValueStat></TargetValueStats></BayesInput></Extension></BayesInputs></NaiveBayesModel></PMML>"#;
    let a = unmarshal(plain).unwrap().naive_bayes_model.expect("plain");
    let b = unmarshal(wrapped).unwrap().naive_bayes_model.expect("wrapped");
    assert_eq!(a.bayes_inputs.len(), 1);
    assert_eq!(b.bayes_inputs.len(), 1);
    for nb in [&a, &b] {
        let bi = &nb.bayes_inputs[0];
        assert_eq!(bi.field_name, "f");
        assert!(bi.pair_counts.is_empty());
        assert_eq!(bi.target_value_stats.len(), 1);
        assert_eq!(bi.target_value_stats[0].value, "a");
        assert_eq!(bi.target_value_stats[0].gaussian_mean.as_deref(), Some("1"));
        assert_eq!(bi.target_value_stats[0].gaussian_variance.as_deref(), Some("2"));
    }
}

#[test]
fn sparse_array_keeps_its_length_and_fills_slots_by_index() {
    let xml = br#"<PMML><SupportVectorMachineModel functionName='r'><VectorDictionary><VectorInstance id='v'><REAL-SparseArray n='3'><Indices>1 2 3</Indices><REAL-Entries>1.5 2.5 3.5</REAL-Entries></REAL-SparseArray></VectorInstance></VectorDictionary></SupportVectorMachineModel></PMML>"#;
    let m = unmarshal(xml).unwrap().support_vector_machine_model.expect("svm model");
    assert_eq!(m.vector_instances.len(), 1);
    assert_eq!(m.vector_instances[0].id, "v");
    let sparse = m.vector_instances[0].sparse.as_ref().expect("sparse array");
    assert_eq!(sparse.n, Some(3));
    assert_eq!(sparse.indices, vec![1, 2, 3]);
    assert_eq!(sparse.entries, vec!["1.5", "2.5", "3.5"]);
    assert_eq!(pmmlruntime::unmarshal::svm::dense_len(sparse), 3);
    assert_eq!(
        pmmlruntime::unmarshal::svm::dense_slots(3, &sparse.indices, 3),
        vec![Some(0), Some(1), Some(2)]
    );
}

#[test]
fn dense_slots_last_pair_wins_and_out_of_range_is_dropped() {
    assert_eq!(pmmlruntime::unmarshal::svm::dense_slots(4, &vec![2, 5, 2, 0], 4), vec![None, Some(2), None, None]);
    assert_eq!(pmmlruntime::unmarshal::svm::dense_slots(2, &vec![1, 2], 1), vec![Some(0), None]);
}

#[test]
fn nearest_neighbor_field_column_defaults_and_table_locator() {
    let xml = br#"<PMML><NearestNeighborModel functionName='classification'><TrainingInstances><InstanceFields><InstanceField field='a'/></InstanceFields><TableLocator/></TrainingInstances></NearestNeighborModel></PMML>"#;
    let m = unmarshal(xml).unwrap().nearest_neighbor_model.expect("knn");
    assert_eq!(m.number_of_neighbors, 1);
    assert_eq!(m.instance_fields.len(), 1);
    assert_eq!(m.instance_fields[0].field, "a");
    assert_eq!(m.instance_fields[0].column, "a");
    assert!(m.instances.is_empty());
    assert!(m.knn_inputs.is_empty());
}

#[test]
fn unsupported_model_content_is_skipped_and_field_defaults_hold() {
    let xml = b"<PMML><DataDictionary><DataField name='f'/></DataDictionary><BayesianNetworkModel><TreeModel functionName='r'/></BayesianNetworkModel><TextModel/></PMML>";
    let raw = unmarshal(xml).unwrap();
    assert_eq!(raw.unsupported_model.as_deref(), Some("BayesianNetworkModel"));
    assert!(raw.tree_model.is_none());
    assert_eq!(raw.data_dictionary.len(), 1);
    assert_eq!(raw.data_dictionary[0].name, "f");
    assert_eq!(raw.data_dictionary[0].data_type, "string");
    assert_eq!(raw.data_dictionary[0].op_type, "categorical");
    assert!(raw.data_dictionary[0].values.is_empty());
}

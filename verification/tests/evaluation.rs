use raxtax::lineage::{signal_start, EvaluationResult, Lineage, LineageRow};
use raxtax::tree::{Node, Tree};
use raxtax::trie::NodeType;
use raxtax::utils::{output_results, output_results_tsv};

fn blank_sequences(count: usize) -> Vec<Vec<u8>> {
    vec![[0b00].repeat(9); count]
}

/// The rows of an evaluation with mass in thousandths, as lineages and
/// confidence values.
fn evaluate<'a>(tree: &'a Tree, thousandths: Vec<u64>) -> Vec<(&'a String, Vec<f64>)> {
    let query_label = String::from("q");
    let lineage = Lineage::new(&query_label, tree, thousandths, 1000);
    lineage
        .evaluate()
        .into_iter()
        .map(|row| {
            (
                &tree.lineages[row.lineage_index],
                row.confidence.iter().map(|h| *h as f64 / 100.0).collect(),
            )
        })
        .collect()
}

#[test]
fn test_tree_construction() {
    let lineages = vec![
        String::from("Animalia,Chordata,Mammalia,Primates,Hominidae,Homo"),
        "Animalia,Chordata,Mammalia,Primates,Hominidae,Pan".into(),
        "Animalia,Chordata,Mammalia,Carnivora,Canidae,Canis".into(),
        "Animalia,Chordata,Mammalia,Carnivora,Felidae,Felis".into(),
        "Animalia,Chordata,Mammalia,Carnivora,Felidae,Felis".into(),
    ];
    let tree = Tree::new(lineages, blank_sequences(5)).unwrap();
    // 0.1, 0.3, 0.4, 0.004, 0.004
    let result = evaluate(&tree, vec![100, 300, 400, 4, 4]);
    assert_eq!(
        result,
        vec![
            (
                &String::from("Animalia,Chordata,Mammalia,Carnivora,Felidae,Felis"),
                vec![0.81, 0.81, 0.81, 0.8, 0.7, 0.7,],
            ),
            (
                &"Animalia,Chordata,Mammalia,Carnivora,Canidae,Canis".into(),
                vec![0.81, 0.81, 0.81, 0.8, 0.1, 0.1,],
            ),
            (
                &"Animalia,Chordata,Mammalia,Primates,Hominidae,Pan".into(),
                vec![0.81, 0.81, 0.81, 0.01, 0.01, 0.01,],
            ),
        ]
    );
}

#[test]
fn test_variable_lineage_length() {
    let lineages = vec![
        String::from("Animalia,Chordata,Mammalia,Primates,Hominidae,Homo,Homo_sapiens"),
        "Animalia,Chordata,Mammalia,Primates,Hominidae,Pan".into(),
        "Animalia,Chordata,Mammalia,Carnivora,Canidae,Canis".into(),
        "Animalia,Chordata,Mammalia,Carnivora,Doggo".into(),
        "Animalia,Chordata,Mammalia,Mouse".into(),
        "Animalia,Chordata,Mammalia,Carnivora,Felidae,Felis".into(),
        "Animalia,Chordata,Mammalia,Carnivora,Felidae,Felis".into(),
    ];
    let tree = Tree::new(lineages, blank_sequences(7)).unwrap();
    // 0.05, 0.1, 0.3, 0.4, 0.1, 0.004, 0.004
    let result = evaluate(&tree, vec![50, 100, 300, 400, 100, 4, 4]);
    assert_eq!(
        result,
        vec![
            (
                &String::from("Animalia,Chordata,Mammalia,Carnivora,Felidae,Felis"),
                vec![0.96, 0.96, 0.96, 0.85, 0.7, 0.7,],
            ),
            (
                &"Animalia,Chordata,Mammalia,Carnivora,Doggo".into(),
                vec![0.96, 0.96, 0.96, 0.85, 0.1,],
            ),
            (
                &"Animalia,Chordata,Mammalia,Carnivora,Canidae,Canis".into(),
                vec![0.96, 0.96, 0.96, 0.85, 0.05, 0.05,],
            ),
            (
                &"Animalia,Chordata,Mammalia,Mouse".into(),
                vec![0.96, 0.96, 0.96, 0.1],
            ),
            (
                &"Animalia,Chordata,Mammalia,Primates,Hominidae,Pan".into(),
                vec![0.96, 0.96, 0.96, 0.01, 0.01, 0.01,],
            ),
        ]
    );
}

#[test]
fn test_likelihood_edge_case() {
    let lineages = vec![
        "Animalia,Chordata,Mammalia,Carnivora,Felidae,Felis".into(),
        "Animalia,Chordata,Mammalia,Carnivora,Felidae,Felis_ferrocius".into(),
        "Animalia,Chordata,Mammalia,Carnivora,Canidae,Canis".into(),
    ];
    let tree = Tree::new(lineages, blank_sequences(3)).unwrap();
    // 0.004, 0.004, 0.004
    let result = evaluate(&tree, vec![4, 4, 4]);
    assert_eq!(
        result,
        vec![(
            &String::from("Animalia,Chordata,Mammalia,Carnivora,Felidae,Felis_ferrocius"),
            vec![0.01, 0.01, 0.01, 0.01, 0.01, 0.01,],
        ),]
    );
}

fn rows(tree: &Tree, values: Vec<u64>, unit: u64) -> Vec<LineageRow> {
    let query_label = String::from("q");
    Lineage::new(&query_label, tree, values, unit).evaluate()
}

#[test]
fn halves_round_up() {
    let tree = Tree::new(vec![String::from("a,b"), String::from("a,c")], blank_sequences(2)).unwrap();
    // 0.005 rounds to 0.01, 0.0049 rounds to 0.00
    let found = rows(&tree, vec![50, 49], 10000);
    assert_eq!(found.len(), 1);
    assert_eq!(found[0].lineage_index, 0);
    assert_eq!(found[0].confidence, vec![1, 1]);
    assert_eq!(found[0].expected, vec![2, 1]);
    // 0.994 rounds to 0.99, 0.995 rounds to 1.00
    let found = rows(&tree, vec![9940, 0], 10000);
    assert_eq!(found[0].confidence, vec![99, 99]);
    let found = rows(&tree, vec![0, 9950], 10000);
    assert_eq!(found[0].lineage_index, 1);
    assert_eq!(found[0].confidence, vec![100, 100]);
}

#[test]
fn mass_of_a_node_is_the_mass_of_its_children() {
    let lineages: Vec<String> = (0..12).map(|i| format!("k,p{},c{},s{}", i / 6, i / 3, i)).collect();
    let tree = Tree::new(lineages, blank_sequences(12)).unwrap();
    let values: Vec<u64> = (0..12).map(|i| (i * 37 % 11 + 1) * 100).collect();
    let total: u64 = values.iter().sum();
    let found = rows(&tree, values.clone(), total);
    assert!(!found.is_empty());
    for row in &found {
        // with the total as unit the kingdom carries all mass
        assert_eq!(row.confidence[0], 100);
        assert_eq!(row.expected[0], 12);
        assert_eq!(row.confidence.len(), row.expected.len());
        assert!(row.confidence.windows(2).all(|w| w[0] >= w[1]));
        assert!(row.expected.windows(2).all(|w| w[0] >= w[1]));
        let leaf = values[row.lineage_index];
        assert_eq!(*row.confidence.last().unwrap(), (200 * leaf + total) / (2 * total));
    }
    assert!(found.windows(2).all(|w| w[0].confidence >= w[1].confidence));
}

#[test]
fn rows_with_equal_confidence_keep_the_order_of_the_trie() {
    let lineages: Vec<String> = (0..4).map(|i| format!("k,s{i}")).collect();
    let tree = Tree::new(lineages, blank_sequences(4)).unwrap();
    let found = rows(&tree, vec![25, 25, 25, 25], 100);
    assert_eq!(
        found.iter().map(|row| row.lineage_index).collect::<Vec<_>>(),
        vec![0, 1, 2, 3]
    );
    assert!(found.iter().all(|row| row.confidence == vec![100, 25]));
    let found = rows(&tree, vec![10, 40, 10, 40], 100);
    assert_eq!(
        found.iter().map(|row| row.lineage_index).collect::<Vec<_>>(),
        vec![1, 3, 0, 2]
    );
}

#[test]
fn a_shorter_row_ranks_behind_the_row_that_extends_it() {
    let tree = Tree::new(
        vec![String::from("k,a"), String::from("k,b,x"), String::from("k,b,y")],
        blank_sequences(3),
    )
    .unwrap();
    let found = rows(&tree, vec![40, 40, 0], 100);
    // [80, 40, 40] comes before [80, 40]
    assert_eq!(found[0].lineage_index, 1);
    assert_eq!(found[0].confidence, vec![80, 40, 40]);
    assert_eq!(found[1].lineage_index, 0);
    assert_eq!(found[1].confidence, vec![80, 40]);
}

#[test]
fn no_mass_collapses_along_the_last_heaviest_child() {
    let tree = Tree::new(
        vec![String::from("k,a,x"), String::from("k,b,y"), String::from("k,b,z")],
        blank_sequences(3),
    )
    .unwrap();
    let found = rows(&tree, vec![0, 0, 0], 100);
    assert_eq!(found.len(), 1);
    // k, b and z are equally heavy with their siblings; the last one wins
    assert_eq!(found[0].lineage_index, 2);
    assert_eq!(found[0].confidence, vec![1, 1, 1]);
    assert_eq!(found[0].expected, vec![3, 2, 1]);
    let found = rows(&tree, vec![1, 0, 0], 1000);
    assert_eq!(found.len(), 1);
    assert_eq!(found[0].lineage_index, 0);
}

#[test]
fn uniform_mass_gives_a_row() {
    let lineages: Vec<String> = (0..300).map(|i| format!("k,p{},s{:03}", i % 5, i)).collect();
    let tree = Tree::new(lineages, blank_sequences(300)).unwrap();
    let found = rows(&tree, vec![1; 300], 300);
    assert!(!found.is_empty());
    for row in &found {
        assert!(row.lineage_index < 300);
        assert_eq!(row.confidence[0], 100);
        assert_eq!(row.confidence[1], 20);
    }
}

#[test]
fn an_empty_index_gives_no_row() {
    let tree = Tree::new(vec![], vec![]).unwrap();
    assert!(rows(&tree, vec![], 1).is_empty());
}

#[test]
fn output_line_of_a_result() {
    let label = String::from("query 1");
    let lineage = String::from("k:A,p:B,s:C");
    let result = EvaluationResult {
        query_label: &label,
        lineage: &lineage,
        confidence_values: vec![100, 81, 7],
        local_signal: 12345,
        global_signal: 1234567,
    };
    assert_eq!(
        result.get_output_string(),
        "query 1\tk:A,p:B,s:C\t1.00,0.81,0.07\t0.12345\t12.34567"
    );
    let sequence = String::from("ACGT-");
    assert_eq!(
        result.get_tsv_string(&sequence),
        "query 1\tk:A\t1.00\tp:B\t0.81\ts:C\t0.07\t0.12345\t12.34567\tACGT-"
    );
    let short = EvaluationResult {
        query_label: &label,
        lineage: &lineage,
        confidence_values: vec![5],
        local_signal: 0,
        global_signal: 5,
    };
    assert_eq!(
        short.get_tsv_string(&sequence),
        "query 1\tk:A\t0.05\tp:B\ts:C\t0.00000\t0.00005\tACGT-"
    );
    assert_eq!(short.get_output_string(), "query 1\tk:A,p:B,s:C\t0.05\t0.00000\t0.00005");
}

#[test]
fn output_texts_hold_a_line_for_each_result() {
    let labels = [String::from("q1"), String::from("q2"), String::from("q3")];
    let lineages = [String::from("a,b"), String::from("a,c")];
    let make = |q: usize, l: usize, c: u64| EvaluationResult {
        query_label: &labels[q],
        lineage: &lineages[l],
        confidence_values: vec![c, c],
        local_signal: 1,
        global_signal: 100000,
    };
    let results = vec![vec![make(0, 0, 60), make(0, 1, 40)], vec![], vec![make(2, 1, 100)]];
    assert_eq!(
        output_results(&results),
        "q1\ta,b\t0.60,0.60\t0.00001\t1.00000\n\
         q1\ta,c\t0.40,0.40\t0.00001\t1.00000\n\
         q3\ta,c\t1.00,1.00\t0.00001\t1.00000\n"
    );
    let sequences = vec![String::from("AC"), String::from("GG"), String::from("T")];
    assert_eq!(
        output_results_tsv(&results, sequences),
        "q1\ta\t0.60\tb\t0.60\t0.00001\t1.00000\tAC\n\
         q1\ta\t0.40\tc\t0.40\t0.00001\t1.00000\tAC\n\
         q3\ta\t1.00\tc\t1.00\t0.00001\t1.00000\tT\n"
    );
    let none: Vec<Vec<EvaluationResult>> = vec![];
    assert_eq!(output_results(&none), "\n");
}

#[test]
fn the_local_signal_starts_where_the_trie_branches() {
    let row = |expected: Vec<usize>| LineageRow {
        lineage_index: 0,
        confidence: vec![1; expected.len()],
        expected,
    };
    assert_eq!(signal_start(&row(vec![5, 5, 3, 1]), 5), 2);
    assert_eq!(signal_start(&row(vec![4, 4, 3, 1]), 5), 0);
    assert_eq!(signal_start(&row(vec![5, 5, 5]), 5), 2);
    assert_eq!(signal_start(&row(vec![5, 5, 4]), 5), 2);
    assert_eq!(signal_start(&row(vec![5]), 5), 0);
    assert_eq!(signal_start(&row(vec![]), 5), 0);
}

fn mass(values: &[u64], node: &Node) -> u64 {
    values[node.confidence_range.0..node.confidence_range.1].iter().sum()
}

fn check_mass(values: &[u64], node: &Node) -> usize {
    let mut nodes = 1;
    if node.node_type != NodeType::Sequence {
        let of_children: u64 = node.children.iter().map(|child| mass(values, child)).sum();
        assert_eq!(of_children, mass(values, node));
    }
    for child in &node.children {
        nodes += check_mass(values, child);
    }
    nodes
}

#[test]
fn the_mass_of_the_children_is_the_mass_of_the_node() {
    let lineages: Vec<String> = (0..60)
        .map(|i| match i % 4 {
            0 => format!("k,p{},c{}", i % 3, i % 5),
            1 => format!("k,p{},c{},s{}", i % 3, i % 5, i),
            2 => format!("k,p{}", i % 3),
            _ => format!("k,p{},c{},s{},t", i % 3, i % 5, i % 7),
        })
        .collect();
    let tree = Tree::new(lineages, blank_sequences(60)).unwrap();
    let values: Vec<u64> = (0..60).map(|i| (i * i * 31 + 7) % 1000).collect();
    assert!(check_mass(&values, &tree.root) > 60);
    assert_eq!(mass(&values, &tree.root), values.iter().sum::<u64>());
}

#[test]
fn mass_that_cannot_be_evaluated_is_refused() {
    let tree = Tree::new(vec![String::from("a,b"), String::from("a,c")], blank_sequences(2)).unwrap();
    let label = String::from("q");
    assert!(Lineage::check_mass(&tree, &vec![1, 2], 3));
    assert!(!Lineage::check_mass(&tree, &vec![1, 2], 0));
    assert!(!Lineage::check_mass(&tree, &vec![1], 3));
    assert!(!Lineage::check_mass(&tree, &vec![1, 2, 3], 3));
    let limit = (u64::MAX - 5) / 200;
    assert!(Lineage::check_mass(&tree, &vec![limit, 0], 5));
    assert!(Lineage::check_mass(&tree, &vec![limit - 7, 7], 5));
    assert!(!Lineage::check_mass(&tree, &vec![limit - 7, 8], 5));
    assert!(!Lineage::check_mass(&tree, &vec![u64::MAX, u64::MAX], 5));
    assert!(Lineage::check_mass(&tree, &vec![0, 0], u64::MAX));
    assert!(!Lineage::check_mass(&tree, &vec![0, 1], u64::MAX));
    assert!(Lineage::rank(&label, &tree, vec![1], 3).is_none());
    let rows = Lineage::rank(&label, &tree, vec![30, 70], 100).unwrap();
    assert_eq!(rows.len(), 2);
    assert_eq!(rows[0].lineage_index, 1);
    assert_eq!(rows[0].confidence, vec![100, 70]);
    assert_eq!(rows[1].confidence, vec![100, 30]);
}

fn assert_rows_follow_their_lineages(tree: &Tree, found: &[LineageRow]) {
    assert!(!found.is_empty());
    for row in found {
        let ranks = tree.lineages[row.lineage_index].split(',').count();
        assert_eq!(row.confidence.len(), ranks);
        assert_eq!(row.expected.len(), ranks);
        assert!(row.confidence.windows(2).all(|pair| pair[0] >= pair[1]));
    }
}

#[test]
fn a_row_has_a_value_for_each_rank_and_the_values_do_not_grow() {
    let lineages = vec![
        String::from("k,a"),
        String::from("k,a,x"),
        String::from("k,a,x,deep"),
        String::from("k,b"),
        String::from("k,b"),
        String::from("m"),
    ];
    let tree = Tree::new(lineages, blank_sequences(6)).unwrap();
    let found = rows(&tree, vec![10, 20, 30, 15, 5, 20], 100);
    assert_rows_follow_their_lineages(&tree, &found);
    assert_eq!(found[0].lineage_index, 2);
    assert_eq!(found[0].confidence, vec![80, 60, 50, 30]);
    assert_eq!(found[1].confidence, vec![80, 20]);
    assert_eq!(found[2].confidence, vec![20]);
    // mass that rounds to nothing collapses the rows into one
    let found = rows(&tree, vec![0, 0, 1, 0, 0, 0], 1000);
    assert_rows_follow_their_lineages(&tree, &found);
    assert_eq!(found.len(), 1);
    let found = rows(&tree, vec![0, 0, 0, 0, 0, 0], 1000);
    assert_rows_follow_their_lineages(&tree, &found);
    assert_eq!(found.len(), 1);
    assert_eq!(found[0].lineage_index, 5);
    assert_eq!(found[0].confidence, vec![1]);
}

use raxtax::binning::{best_bin, bin_label, binning_line, group_bins};
use raxtax::parser::{header_labels, parse_reference_fasta_str};
use raxtax::text::{chars_of, lex_less, split_chars, string_of};
use raxtax::io::is_gzip_extension;
use raxtax::pinning::preferred_cpus;
use raxtax::postings::ids_in_order;
use raxtax::tree::{index_order, ranges_in_order, taxa_are_closed, Node, Tree};
use raxtax::trie::NodeType;

fn blank_sequences(count: usize) -> Vec<Vec<u8>> {
    vec![[0b00].repeat(9); count]
}

fn small_index() -> Tree {
    parse_reference_fasta_str(
        ">b1|x;tax=k,a,x;\nAAACCCCGTACGT\n>b2|y;tax=k,b,y;\nTTTAAAACCGGTT\n>b1|z;tax=k,a,z;\nAAACCCCGTACGA\n",
    )
    .unwrap()
}

#[test]
fn an_index_that_was_built_is_well_formed() {
    assert!(small_index().check());
    assert!(Tree::new(vec![], vec![]).unwrap().check());
    let weird = Tree::new(vec![String::from("a"), String::from("a,a")], blank_sequences(2)).unwrap();
    assert!(weird.check());
    let lineages: Vec<String> = (0..50).map(|i| format!("k,p{},s{}", i % 7, i % 3)).collect();
    let sequences: Vec<Vec<u8>> = (0..50usize)
        .map(|i| (0..30usize).map(|j| 1u8 << ((i * j + j / 3) % 4)).collect())
        .collect();
    assert!(Tree::new(lineages, sequences).unwrap().check());
}

#[test]
fn an_index_with_a_fault_is_not_well_formed() {
    let mut tree = small_index();
    tree.num_tips = 2;
    assert!(!tree.check());

    let mut tree = small_index();
    tree.lineages.pop();
    assert!(!tree.check());

    let mut tree = small_index();
    tree.k_mer_map.pop();
    assert!(!tree.check());

    let mut tree = small_index();
    let key = tree.k_mer_map.iter().position(|ids| ids.len() > 1).unwrap();
    tree.k_mer_map[key].reverse();
    assert!(!tree.check());

    let mut tree = small_index();
    tree.k_mer_map[0].push(3);
    assert!(!tree.check());

    let mut tree = small_index();
    tree.sequences.insert(vec![1, 2, 3], vec![7]);
    assert!(!tree.check());

    let mut tree = small_index();
    tree.sequences.insert(vec![1, 2, 3], vec![1, 0]);
    assert!(!tree.check());

    let mut tree = small_index();
    tree.root.confidence_range.1 = 4;
    assert!(!tree.check());

    let mut tree = small_index();
    tree.root.children[0].children[0].confidence_range.1 = 1;
    assert!(!tree.check());

    let mut tree = small_index();
    tree.root.node_type = NodeType::Taxon;
    assert!(!tree.check());

    // a sequence node under an inner node
    let mut tree = small_index();
    tree.root.children[0].children[0].node_type = NodeType::Sequence;
    assert!(!tree.check());

    // a lineage with more ranks than its taxon is deep
    let mut tree = small_index();
    tree.lineages[0] = String::from("k,a,x,deep");
    assert!(!tree.check());

    // a taxon above the last rank of its first lineage
    let mut tree = small_index();
    tree.root.children[0].children[0].node_type = NodeType::Taxon;
    assert!(!tree.check());

    let mut tree = Tree::new(vec![], vec![]).unwrap();
    tree.root.label = String::from("top");
    assert!(!tree.check());
}

#[test]
fn checks_of_nodes_and_lists() {
    assert!(ids_in_order(&vec![], 0));
    assert!(ids_in_order(&vec![0, 2, 5], 6));
    assert!(!ids_in_order(&vec![0, 2, 5], 5));
    assert!(!ids_in_order(&vec![0, 2, 2], 6));
    assert!(!ids_in_order(&vec![3, 2], 6));
    let leaf = |lo: usize, hi: usize| Node {
        label: String::from("s"),
        confidence_range: (lo, hi),
        children: vec![],
        node_type: NodeType::Sequence,
    };
    let taxon = |children: Vec<Node>, lo: usize, hi: usize| Node {
        label: String::from("t"),
        confidence_range: (lo, hi),
        children,
        node_type: NodeType::Taxon,
    };
    assert!(ranges_in_order(&leaf(3, 4)));
    assert!(!ranges_in_order(&leaf(3, 3)));
    assert!(ranges_in_order(&taxon(vec![leaf(3, 4), leaf(4, 5)], 3, 5)));
    assert!(!ranges_in_order(&taxon(vec![leaf(3, 4), leaf(5, 6)], 3, 6)));
    assert!(!ranges_in_order(&taxon(vec![leaf(3, 4), leaf(4, 5)], 3, 6)));
    assert!(!ranges_in_order(&taxon(vec![leaf(3, 4), leaf(4, 5)], 2, 5)));
    assert!(!ranges_in_order(&taxon(vec![], 2, 5)));
    let mut stub_with_child = leaf(3, 4);
    stub_with_child.children.push(leaf(3, 4));
    assert!(!ranges_in_order(&stub_with_child));
    assert!(taxa_are_closed(&taxon(vec![leaf(3, 4)], 3, 4)));
    let mut inner = taxon(vec![leaf(3, 4)], 3, 4);
    inner.node_type = NodeType::Inner;
    assert!(!taxa_are_closed(&inner));
    inner.children[0].node_type = NodeType::Taxon;
    assert!(taxa_are_closed(&inner));
}

#[test]
fn the_order_of_the_index() {
    let lineages: Vec<String> = ["b,x", "a,y", "b,x", "a", "a,y", "B", "a!z"]
        .iter()
        .map(|l| l.to_string())
        .collect();
    let order = index_order(&lineages);
    assert_eq!(order, vec![5, 3, 6, 1, 4, 0, 2]);
    let mut sorted = lineages.clone();
    sorted.sort();
    assert_eq!(order.iter().map(|row| lineages[*row].clone()).collect::<Vec<_>>(), sorted);
    assert!(index_order(&vec![]).is_empty());
    let mixed: Vec<String> = ["\u{e9}t\u{e9}", "zebra", "\u{1F600}", "Zebra", "\u{e9}", "e", "\u{4e2d}\u{6587}", ""]
        .iter()
        .map(|l| l.to_string())
        .collect();
    let mut sorted = mixed.clone();
    sorted.sort();
    assert_eq!(
        index_order(&mixed).iter().map(|row| mixed[*row].clone()).collect::<Vec<_>>(),
        sorted
    );
}

#[test]
fn texts_in_lexicographic_order() {
    let less = |a: &str, b: &str| lex_less(&a.chars().collect(), &b.chars().collect());
    assert!(less("", "a"));
    assert!(!less("a", ""));
    assert!(!less("", ""));
    assert!(less("a", "ab"));
    assert!(less("ab", "b"));
    assert!(less("a,b", "a-b"));
    assert!(less("Z", "a"));
    assert!(!less("abc", "abc"));
    assert!(less("z", "\u{e9}"));
    assert!(less("\u{e9}", "\u{1F600}"));
}

#[test]
fn texts_are_split_and_put_together() {
    let parts = |text: &str| -> Vec<String> {
        split_chars(&chars_of(text), ',')
            .iter()
            .map(|part| string_of(part, 0, part.len()))
            .collect()
    };
    assert_eq!(parts("a,b,c"), vec!["a", "b", "c"]);
    assert_eq!(parts(""), vec![""]);
    assert_eq!(parts(","), vec!["", ""]);
    assert_eq!(parts("a,,b,"), vec!["a", "", "b", ""]);
    assert_eq!(parts("no comma"), vec!["no comma"]);
    let chars = chars_of("h\u{e9}llo");
    assert_eq!(chars.len(), 5);
    assert_eq!(string_of(&chars, 1, 3), "\u{e9}l");
    assert_eq!(string_of(&chars, 2, 2), "");
}

#[test]
fn headers_of_a_database() {
    let text = "; note\n>b1|x;tax=k,a;\nACGT\n  >b2|y;tax=k,b; \nAC\nGT\n>\n";
    assert_eq!(header_labels(text), vec!["b1|x;tax=k,a;", "b2|y;tax=k,b;", ""]);
    assert!(header_labels("ACGT\n").is_empty());
}

#[test]
fn the_heaviest_bin() {
    assert_eq!(best_bin(&vec![], 0, &vec![]), None);
    assert_eq!(best_bin(&vec![], 2, &vec![]), Some((0, 0)));
    assert_eq!(best_bin(&vec![0, 1, 0, 2], 3, &vec![10, 25, 10, 5]), Some((1, 25)));
    assert_eq!(best_bin(&vec![0, 1, 0, 2], 3, &vec![10, 20, 10, 20]), Some((0, 20)));
    assert_eq!(best_bin(&vec![2, 1, 1, 2], 3, &vec![10, 20, 10, 20]), Some((1, 30)));
    let label = String::from("q");
    let bin = String::from("BOLD:AAP6467");
    assert_eq!(binning_line(&label, &bin, 305, 1000), "q\tBOLD:AAP6467\t0.31");
    assert_eq!(binning_line(&label, &bin, 304, 1000), "q\tBOLD:AAP6467\t0.30");
    assert_eq!(binning_line(&label, &bin, 1000, 1000), "q\tBOLD:AAP6467\t1.00");
    assert_eq!(binning_line(&label, &bin, 0, 1000), "q\tBOLD:AAP6467\t0.00");
}

#[test]
fn one_processor_of_each_core_is_preferred() {
    // (core, socket, processor)
    let all = vec![(0, 0, 0), (1, 0, 1), (0, 1, 2), (1, 1, 3), (0, 0, 4), (1, 0, 5), (0, 1, 6), (1, 1, 7)];
    assert_eq!(preferred_cpus(&all), vec![0, 2, 1, 3]);
    let shuffled = vec![(1, 0, 5), (0, 0, 4), (1, 0, 1), (0, 0, 0), (2, 0, 9)];
    assert_eq!(preferred_cpus(&shuffled), vec![0, 1, 9]);
    assert!(preferred_cpus(&vec![]).is_empty());
    assert_eq!(preferred_cpus(&vec![(3, 1, 8), (3, 1, 8)]), vec![8]);
}

#[test]
fn extensions_of_gzip_files() {
    for extension in ["gz", "GZ", "gZ", "gzip", "GZIP", "GzIp"] {
        assert!(is_gzip_extension(extension));
    }
    for extension in ["", "g", "zip", "gzi", "gzipp", "fasta", "fa", "zg", "g z", "gz "] {
        assert!(!is_gzip_extension(extension));
    }
}

#[test]
fn outline_of_a_trie() {
    let tree = Tree::new(
        vec![String::from("k,b"), String::from("k,a,x"), String::from("k,a,x")],
        blank_sequences(3),
    )
    .unwrap();
    assert_eq!(
        tree.outline(),
        vec![
            "root (0, 3)",
            "  k (0, 3)",
            "    a (0, 2)",
            "      x (0, 2)",
            "        x (0, 1)",
            "        x (1, 2)",
            "    b (2, 3)",
            "      b (2, 3)",
        ]
    );
    assert_eq!(Tree::new(vec![], vec![]).unwrap().outline(), vec!["root (0, 0)"]);
}

#[test]
fn references_are_grouped_into_bins() {
    assert_eq!(bin_label("BOLD:AAP6467|SSBAE436-13|Canada"), "BOLD:AAP6467");
    assert_eq!(bin_label("no bar"), "no bar");
    assert_eq!(bin_label("|x"), "");
    assert_eq!(bin_label(""), "");
    let labels: Vec<String> = ["b2", "b1", "b2", "b3", "b1", "b2"].iter().map(|l| l.to_string()).collect();
    let (of_reference, names) = group_bins(&labels);
    assert_eq!(names, vec!["b1", "b2", "b3"]);
    assert_eq!(of_reference, vec![1, 0, 1, 2, 0, 1]);
    let (of_reference, names) = group_bins(&vec![]);
    assert!(of_reference.is_empty() && names.is_empty());
    let many: Vec<String> = (0..200).map(|i| format!("bin{}", (i * 7) % 13)).collect();
    let (of_reference, names) = group_bins(&many);
    assert_eq!(names.len(), 13);
    assert!(names.windows(2).all(|w| w[0] < w[1]));
    for (r, label) in many.iter().enumerate() {
        assert_eq!(&names[of_reference[r]], label);
    }
}

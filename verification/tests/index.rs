use raxtax::parser::{parse_reference_fasta_str, reference_records, ParseError};
use raxtax::tree::{Node, Tree, TreeError};
use raxtax::trie::NodeType;

#[test]
fn test_str_parser() {
    let fasta_str = r">Badabing|Badabum;tax=p:Phylum1,c:Class1,o:Order1,f:Family1,g:Genus1,s:Species1;
AAACCCTTTGGGA
>Badabing|Badabum;tax=p:Phylum1,c:Class1,o:Order1,f:Family1,g:Genus1,s:Species2;
ATACGCTTTGGGA
>Badabing|Badabum;tax=p:Phylum1,c:Class1,o:Order4,f:Family5,g:Genus2,s:Species3;
ATCCGCTATGGGA
>Badabing|Badabum;tax=p:Phylum1,c:Class2,o:Order2,f:Family3,g:Genus3,s:Species6;
ATACGCTTTGCGT
>Badabing|Badabum;tax=p:Phylum1,c:Class1,o:Order1,f:Family1,g:Genus1,s:Species2;
GTGCGCTATGCGA
>Badabing|Badabum;tax=p:Phylum2,c:Class3,o:Order3,f:Family4,g:Genus4,s:Species5;
ATACGCTTTGCGT";
    let tree = parse_reference_fasta_str(fasta_str).unwrap();
    for (k, v) in tree.k_mer_map.iter().enumerate() {
        if !v.is_empty() {
            println!("{k:b}:\n {v:?}");
        }
    }
    assert_eq!(
        tree.k_mer_map[0b1_0101_1111_1110_usize].iter().collect::<Vec<_>>(),
        &[&0]
    );
    let mut sorted = tree.k_mer_map[0b11_0001_1001_1111_usize].clone();
    sorted.sort();
    assert_eq!(sorted.iter().collect::<Vec<_>>(), &[&1, &4, &5]);
    assert_eq!(
        tree.k_mer_map[0b110_0111_0011_1010_usize].iter().collect::<Vec<_>>(),
        &[&3]
    );
    assert_eq!(tree.num_tips, 6);
    assert_eq!(
        tree.lineages,
        vec![
            String::from("p:Phylum1,c:Class1,o:Order1,f:Family1,g:Genus1,s:Species1"),
            "p:Phylum1,c:Class1,o:Order1,f:Family1,g:Genus1,s:Species2".into(),
            "p:Phylum1,c:Class1,o:Order1,f:Family1,g:Genus1,s:Species2".into(),
            "p:Phylum1,c:Class1,o:Order4,f:Family5,g:Genus2,s:Species3".into(),
            "p:Phylum1,c:Class2,o:Order2,f:Family3,g:Genus3,s:Species6".into(),
            "p:Phylum2,c:Class3,o:Order3,f:Family4,g:Genus4,s:Species5".into(),
        ]
    );
}

#[test]
fn test_kmers() {
    let fasta_str = r">Badabing|Badabum;tax=p:Phylum1,c:Class1,o:Order1,f:Family1,g:Genus1,s:Species1;
AAACCCCGT
>Badabing|Badabum;tax=p:Phylum1,c:Class1,o:Order1,f:Family1,g:Genus1,s:Species1;
TAACCCCGG
>Badabing|Badabum;tax=p:Phylum1,c:Class1,o:Order1,f:Family1,g:Genus2,s:Species3;
TTTAAAACC
>Badabing|Badabum;tax=p:Phylum1,c:Class1,o:Order1,f:Family1,g:Genus2,s:Species3;
TTTAAAACA
>Badabing|Badabum;tax=p:Phylum1,c:Class2,o:Order2,f:Family2,g:Genus3,s:Species4;
AAACCCCGG";
    let Tree { k_mer_map, .. } = parse_reference_fasta_str(fasta_str).unwrap();
    for (k, v) in k_mer_map.iter().enumerate() {
        if !v.is_empty() {
            println!("{k:b}:\n {v:?}");
        }
    }
    let sorted = |key: usize| {
        let mut ids = k_mer_map[key].clone();
        ids.sort();
        ids
    };
    assert_eq!(sorted(0b1_0101_0110_usize), vec![0, 4]);
    assert_eq!(sorted(0b101_0101_1010_usize), vec![1, 4]);
    assert_eq!(sorted(0b101_0101_1011_usize), vec![0]);
    assert_eq!(sorted(0b1100_0001_0101_0110_usize), vec![1]);
    assert_eq!(sorted(0b1111_0000_0000_0101_usize), vec![2]);
    assert_eq!(sorted(0b1111_0000_0000_0101_usize), vec![2]);
    assert_eq!(sorted(0b1111_1100_0000_0001_usize), vec![2, 3]);
}

fn blank_sequences(count: usize) -> Vec<Vec<u8>> {
    vec![[0b00].repeat(9); count]
}

fn check_ranges(node: &Node, posting_free: bool) {
    let (lo, hi) = node.confidence_range;
    assert!(lo < hi);
    if node.node_type == NodeType::Sequence {
        assert!(node.children.is_empty());
    } else {
        assert!(!node.children.is_empty());
        assert_eq!(node.children.first().unwrap().confidence_range.0, lo);
        assert_eq!(node.children.last().unwrap().confidence_range.1, hi);
        for pair in node.children.windows(2) {
            assert_eq!(pair[0].confidence_range.1, pair[1].confidence_range.0);
        }
        let sum: usize = node
            .children
            .iter()
            .map(|c| c.confidence_range.1 - c.confidence_range.0)
            .sum();
        assert_eq!(sum, hi - lo);
    }
    for child in &node.children {
        check_ranges(child, posting_free);
    }
}

#[test]
fn trie_of_five_lineages() {
    let lineages = vec![
        String::from("Animalia,Chordata,Mammalia,Primates,Hominidae,Homo"),
        "Animalia,Chordata,Mammalia,Primates,Hominidae,Pan".into(),
        "Animalia,Chordata,Mammalia,Carnivora,Canidae,Canis".into(),
        "Animalia,Chordata,Mammalia,Carnivora,Felidae,Felis".into(),
        "Animalia,Chordata,Mammalia,Carnivora,Felidae,Felis".into(),
    ];
    let tree = Tree::new(lineages, blank_sequences(5)).unwrap();
    assert_eq!(tree.num_tips, 5);
    assert_eq!(tree.root.confidence_range, (0, 5));
    assert_eq!(tree.root.label, "root");
    assert_eq!(tree.root.node_type, NodeType::Inner);
    check_ranges(&tree.root, true);
    let mammalia = &tree.root.children[0].children[0].children[0];
    assert_eq!(mammalia.label, "Mammalia");
    assert_eq!(mammalia.confidence_range, (0, 5));
    assert_eq!(mammalia.children.len(), 2);
    let carnivora = &mammalia.children[0];
    assert_eq!(carnivora.label, "Carnivora");
    assert_eq!(carnivora.confidence_range, (0, 3));
    let felis = &carnivora.children[1].children[0];
    assert_eq!(felis.label, "Felis");
    assert_eq!(felis.node_type, NodeType::Taxon);
    assert_eq!(felis.confidence_range, (1, 3));
    assert_eq!(felis.children.len(), 2);
    assert_eq!(felis.children[0].node_type, NodeType::Sequence);
    assert_eq!(felis.children[0].label, "Felis");
    assert_eq!(felis.children[1].confidence_range, (2, 3));
    assert_eq!(mammalia.children[1].label, "Primates");
    assert_eq!(mammalia.children[1].node_type, NodeType::Inner);
    assert_eq!(mammalia.children[1].confidence_range, (3, 5));
    assert_eq!(tree.sequences.len(), 1);
    assert_eq!(tree.sequences[&[0u8; 9].to_vec()], vec![0, 1, 2, 3, 4]);
    assert_eq!(tree.k_mer_map.len(), 65536);
    assert!(tree.k_mer_map.iter().all(|ids| ids.is_empty()));
    assert!(!tree.is_inner_taxon_node(felis));
    assert!(tree.is_taxon_leaf(felis));
    assert!(tree.is_inner_taxon_node(carnivora));
}

#[test]
fn rows_of_equal_lineage_keep_their_order() {
    let lineages = vec![String::from("b,x"), "a,y".into(), "b,x".into(), "a,y".into()];
    let sequences = vec![vec![1u8; 8], vec![2u8; 8], vec![4u8; 8], vec![8u8; 8]];
    let tree = Tree::new(lineages, sequences).unwrap();
    assert_eq!(tree.lineages, vec!["a,y", "a,y", "b,x", "b,x"]);
    // all C is key 0101..., all T is key 1111...
    assert_eq!(tree.k_mer_map[0b0101_0101_0101_0101], vec![0]);
    assert_eq!(tree.k_mer_map[0b1111_1111_1111_1111], vec![1]);
    assert_eq!(tree.k_mer_map[0], vec![2]);
    assert_eq!(tree.k_mer_map[0b1010_1010_1010_1010], vec![3]);
    assert_eq!(tree.sequences[&vec![4u8; 8]], vec![3]);
    check_ranges(&tree.root, false);
}

#[test]
fn posting_lists_ascend_strictly() {
    let lineages: Vec<String> = (0..40).map(|i| format!("k,p{},s{}", i % 7, i % 3)).collect();
    let sequences: Vec<Vec<u8>> = (0..40usize)
        .map(|i| (0..30usize).map(|j| 1u8 << ((i * j + j / 3) % 4)).collect())
        .collect();
    let tree = Tree::new(lineages.clone(), sequences.clone()).unwrap();
    let mut sorted_lineages = lineages;
    sorted_lineages.sort();
    assert_eq!(tree.lineages, sorted_lineages);
    let mut entries = 0;
    for ids in &tree.k_mer_map {
        assert!(ids.windows(2).all(|w| w[0] < w[1]));
        assert!(ids.iter().all(|id| (*id as usize) < tree.num_tips));
        entries += ids.len();
    }
    assert!(entries > 0);
    for ids in tree.sequences.values() {
        assert!(ids.windows(2).all(|w| w[0] < w[1]));
    }
    let listed: usize = tree.sequences.values().map(|ids| ids.len()).sum();
    assert_eq!(listed, 40);
    check_ranges(&tree.root, false);
    assert_eq!(tree.root.confidence_range, (0, 40));
}

#[test]
fn empty_database_has_an_empty_index() {
    let tree = Tree::new(vec![], vec![]).unwrap();
    assert_eq!(tree.num_tips, 0);
    assert_eq!(tree.root.confidence_range, (0, 0));
    assert!(tree.root.children.is_empty());
    assert!(tree.sequences.is_empty());
}

#[test]
fn index_errors() {
    assert_eq!(
        Tree::new(vec![String::from("a,b")], vec![]).unwrap_err(),
        TreeError::LengthMismatch
    );
    assert_eq!(
        Tree::new(vec![String::from("a,,b")], blank_sequences(1)).unwrap_err(),
        TreeError::EmptyLabel
    );
    assert_eq!(
        Tree::new(vec![String::from("a,b"), String::new()], blank_sequences(2)).unwrap_err(),
        TreeError::EmptyLabel
    );
    assert_eq!(
        Tree::new(vec![String::from("a,b,")], blank_sequences(1)).unwrap_err(),
        TreeError::EmptyLabel
    );
}

#[test]
fn a_lineage_that_repeats_its_last_rank() {
    // the sequence node of "a" carries the label "a", yet the second rank
    // of "a,a" is a node of its own
    let tree = Tree::new(vec![String::from("a"), String::from("a,a")], blank_sequences(2)).unwrap();
    let a = &tree.root.children[0];
    assert_eq!(a.node_type, NodeType::Taxon);
    assert_eq!(a.confidence_range, (0, 2));
    assert_eq!(a.children.len(), 2);
    let stub = &a.children[0];
    assert_eq!(stub.node_type, NodeType::Sequence);
    assert_eq!(stub.confidence_range, (0, 1));
    assert!(stub.children.is_empty());
    let below = &a.children[1];
    assert_eq!(below.label, "a");
    assert_eq!(below.node_type, NodeType::Taxon);
    assert_eq!(below.confidence_range, (1, 2));
    assert_eq!(below.children.len(), 1);
    assert_eq!(below.children[0].node_type, NodeType::Sequence);
    assert_eq!(below.children[0].confidence_range, (1, 2));
    check_ranges(&tree.root, true);
}

#[test]
fn reference_records_are_read_in_order() {
    let text = ">x;tax=k:A,p:B;\nACGT\nAC\n>y tax=k:A;size=3;tax=k:C;\nGGTT\n";
    let (lineages, sequences) = reference_records(text).unwrap();
    assert_eq!(lineages, vec!["k:A,p:B", "k:A"]);
    assert_eq!(sequences, vec![vec![1, 2, 4, 8, 1, 2], vec![4, 4, 8, 8]]);
}

#[test]
fn reference_parser_errors() {
    assert_eq!(parse_reference_fasta_str("").unwrap_err(), ParseError::Empty);
    assert_eq!(parse_reference_fasta_str("ACGT").unwrap_err(), ParseError::NotFasta);
    assert_eq!(
        parse_reference_fasta_str(">no lineage here\nACGT").unwrap_err(),
        ParseError::MissingTaxonomy
    );
    assert_eq!(
        parse_reference_fasta_str(">x;tax=;\nACGT").unwrap_err(),
        ParseError::MissingTaxonomy
    );
    assert_eq!(
        parse_reference_fasta_str(">x;tax=a,b;\nAC!T").unwrap_err(),
        ParseError::UnexpectedCharacter
    );
    assert_eq!(
        parse_reference_fasta_str(">x;tax=a,b;\n>y;tax=a,c;\nACGT").unwrap_err(),
        ParseError::CountMismatch
    );
    assert_eq!(
        parse_reference_fasta_str(">x;tax=a,,b;\nACGT").unwrap_err(),
        ParseError::Index(TreeError::EmptyLabel)
    );
}

#[test]
fn errors_say_what_went_wrong() {
    assert_eq!(ParseError::Empty.message(), "File is empty");
    assert_eq!(ParseError::NotFasta.message(), "Not a valid FASTA file");
    assert_eq!(
        ParseError::CountMismatch.message(),
        "Number of sequences does not match number of labels"
    );
    assert_eq!(
        TreeError::TooManySequences.message(),
        "Too many database sequences to run with 32-bit indices!"
    );
    assert_eq!(
        ParseError::Index(TreeError::EmptyLabel).message(),
        TreeError::EmptyLabel.message()
    );
    let all = [
        ParseError::Empty,
        ParseError::NotFasta,
        ParseError::UnexpectedCharacter,
        ParseError::MissingTaxonomy,
        ParseError::CountMismatch,
        ParseError::Pattern,
        ParseError::Index(TreeError::LengthMismatch),
        ParseError::Index(TreeError::TooManySequences),
        ParseError::Index(TreeError::EmptyLabel),
    ];
    for (i, error) in all.iter().enumerate() {
        assert!(!error.message().is_empty());
        for other in &all[i + 1..] {
            if *error != ParseError::CountMismatch || *other != ParseError::Index(TreeError::LengthMismatch) {
                assert_ne!(error.message(), other.message());
            }
        }
    }
}

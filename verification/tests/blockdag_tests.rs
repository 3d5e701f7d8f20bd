use blockdag::anticone::{remove_past_future, sorted_keys_by_height, tips_anticone};
use blockdag::block::DagError;
use blockdag::calcblue::{calc_blue, check_k_cluster, dec_successors_anticone_blue};
use blockdag::dag::{find_block, node_add_block, update_tips, Node};

fn add(node: &mut Node, name: &str, refs: Vec<&str>, k: i32) {
    let r = node_add_block(name, &refs, node, k, true);
    assert!(r.is_ok());
}

#[test]
fn test_fig3() {
    let k: i32 = 3;

    let mut node_w = Node::init("fig3");

    add(&mut node_w, "Genesis", Vec::new(), k);

    add(&mut node_w, "B", vec!["Genesis"], k);
    add(&mut node_w, "C", vec!["Genesis"], k);
    add(&mut node_w, "D", vec!["Genesis"], k);
    add(&mut node_w, "E", vec!["Genesis"], k);

    add(&mut node_w, "F", vec!["B", "C"], k);
    add(&mut node_w, "H", vec!["C", "D", "E"], k);
    add(&mut node_w, "I", vec!["E"], k);

    add(&mut node_w, "J", vec!["F", "H"], k);
    add(&mut node_w, "K", vec!["B", "H", "I"], k);
    add(&mut node_w, "L", vec!["D", "I"], k);
    add(&mut node_w, "N", vec!["L", "K"], k);
    add(&mut node_w, "M", vec!["F", "K"], k);

    assert_eq!(2 + 2, 4);
}

#[test]
fn test_fig4() {
    let k: i32 = 3;

    let mut node_w = Node::init("fig4");

    add(&mut node_w, "Genesis", Vec::new(), k);

    add(&mut node_w, "B", vec!["Genesis"], k);
    add(&mut node_w, "C", vec!["Genesis"], k);
    add(&mut node_w, "D", vec!["Genesis"], k);
    add(&mut node_w, "E", vec!["Genesis"], k);

    add(&mut node_w, "F", vec!["B", "C"], k);
    add(&mut node_w, "H", vec!["E"], k);
    add(&mut node_w, "I", vec!["C", "D"], k);

    add(&mut node_w, "J", vec!["F", "D"], k);
    add(&mut node_w, "K", vec!["J", "I", "E"], k);
    add(&mut node_w, "L", vec!["F"], k);
    add(&mut node_w, "N", vec!["D", "H"], k);

    add(&mut node_w, "M", vec!["L", "K"], k);
    add(&mut node_w, "O", vec!["K"], k);
    add(&mut node_w, "P", vec!["K"], k);
    add(&mut node_w, "Q", vec!["N"], k);

    add(&mut node_w, "R", vec!["O", "P", "N"], k);

    add(&mut node_w, "S", vec!["Q"], k);
    add(&mut node_w, "T", vec!["S"], k);
    add(&mut node_w, "U", vec!["T"], k);

    assert_eq!(2 + 2, 4);
}

#[test]
fn test_anticone() {
    let k: i32 = 3;

    let mut node_w = Node::init("block add test");

    add(&mut node_w, "Genesis", Vec::new(), k);

    add(&mut node_w, "B", vec!["Genesis"], k);
    add(&mut node_w, "C", vec!["Genesis"], k);
    add(&mut node_w, "D", vec!["Genesis"], k);
    add(&mut node_w, "E", vec!["Genesis"], k);

    add(&mut node_w, "F", vec!["B", "C"], k);
    add(&mut node_w, "H", vec!["C", "D", "E"], k);
    add(&mut node_w, "I", vec!["E"], k);

    let anticone = tips_anticone("H", &node_w);
    let result = format!(
        "anticone of {} = {:?}",
        "H",
        sorted_keys_by_height(&node_w, &anticone, false)
    );
    println!("{}", result);
    assert_eq!(result, "anticone of H = [(\"B\", 1), (\"F\", 2), (\"I\", 2)]");

    add(&mut node_w, "J", vec!["F", "H"], k);
    add(&mut node_w, "K", vec!["B", "H", "I"], k);
    add(&mut node_w, "L", vec!["D", "I"], k);
    add(&mut node_w, "M", vec!["F", "K"], k);

    let anticone = tips_anticone("M", &node_w);
    let result = format!(
        "anticone of {} = {:?}",
        "M",
        sorted_keys_by_height(&node_w, &anticone, false)
    );
    println!("{}", result);
    assert_eq!(result, "anticone of M = [(\"J\", 3), (\"L\", 3)]");
}

#[test]
fn test_fig_x1() {
    let k: i32 = 0;

    let mut node_w = Node::init("figX1");

    add(&mut node_w, "Genesis", Vec::new(), k);

    add(&mut node_w, "B", vec!["Genesis"], k);
    add(&mut node_w, "C", vec!["Genesis"], k);
    add(&mut node_w, "D", vec!["Genesis"], k);
    add(&mut node_w, "E", vec!["Genesis"], k);

    add(&mut node_w, "01", vec!["B", "C", "D", "E"], k);
    add(&mut node_w, "02", vec!["B", "E"], k);
    add(&mut node_w, "03", vec!["B", "C", "D", "E"], k);
    add(&mut node_w, "04", vec!["E"], k);

    add(&mut node_w, "05", vec!["01", "04"], k);
    add(&mut node_w, "06", vec!["01", "03", "04"], k);
    add(&mut node_w, "07", vec!["01", "02"], k);

    add(&mut node_w, "08", vec!["02", "03", "05"], k);
    add(&mut node_w, "09", vec!["05", "06", "07"], k);

    add(&mut node_w, "10", vec!["08", "09"], k);
    add(&mut node_w, "11", vec!["08", "09"], k);

    add(&mut node_w, "12", vec!["11"], k);
    add(&mut node_w, "13", vec!["10", "11"], k);

    add(&mut node_w, "14", vec!["13"], k);
    add(&mut node_w, "15", vec!["12", "13"], k);

    add(&mut node_w, "16", vec!["12", "14"], k);
    add(&mut node_w, "17", vec!["15", "16"], k);
    add(&mut node_w, "18", vec!["16"], k);

    add(&mut node_w, "19", vec!["17", "18"], k);
    add(&mut node_w, "20", vec!["17", "18"], k);
    add(&mut node_w, "21", vec!["17"], k);
    add(&mut node_w, "22", vec!["17", "18"], k);
    add(&mut node_w, "23", vec!["17", "18"], k);

    add(&mut node_w, "24", vec!["19", "23"], k);
    add(&mut node_w, "25", vec!["23"], k);
    add(&mut node_w, "26", vec!["23"], k);

    add(&mut node_w, "27", vec!["20", "22", "24", "26"], k);
    add(&mut node_w, "28", vec!["21", "22", "24"], k);
    add(&mut node_w, "29", vec!["22", "24", "25", "26"], k);
    add(&mut node_w, "30", vec!["21", "24", "25", "26"], k);
    add(&mut node_w, "31", vec!["24"], k);

    add(&mut node_w, "32", vec!["22", "25", "31"], k);
    add(&mut node_w, "33", vec!["26", "31"], k);
    add(&mut node_w, "34", vec!["22", "31"], k);

    add(&mut node_w, "35", vec!["20", "26", "28", "34"], k);
    add(&mut node_w, "36", vec!["20", "28", "30", "33", "34"], k);
    add(&mut node_w, "37", vec!["32"], k);
    add(&mut node_w, "38", vec!["20", "32", "33"], k);
    add(&mut node_w, "39", vec!["32"], k);

    add(&mut node_w, "40", vec!["21", "33", "37", "39"], k);
    add(&mut node_w, "41", vec!["21", "26", "34", "37"], k);

    add(&mut node_w, "42", vec!["27", "29", "36", "39", "41"], k);
    add(&mut node_w, "43", vec!["28", "29", "33", "41"], k);
    add(&mut node_w, "44", vec!["29", "32"], k);
    add(&mut node_w, "45", vec!["27", "29", "36", "38", "40"], k);

    assert_eq!(2 + 2, 4);
}

#[test]
fn test_fig_x2() {
    let k: i32 = 0;

    let mut node_w = Node::init("figX2");

    add(&mut node_w, "Genesis", Vec::new(), k);

    add(&mut node_w, "01", vec!["Genesis"], k);
    add(&mut node_w, "02", vec!["Genesis"], k);
    add(&mut node_w, "03", vec!["Genesis"], k);
    add(&mut node_w, "04", vec!["Genesis"], k);
    add(&mut node_w, "05", vec!["Genesis"], k);

    add(&mut node_w, "06", vec!["01", "02", "03", "04", "05"], k);
    add(&mut node_w, "07", vec!["01", "02", "03", "04", "05"], k);
    add(&mut node_w, "08", vec!["01", "02", "03", "04", "05"], k);
    add(&mut node_w, "09", vec!["01", "02", "03", "04", "05"], k);
    add(&mut node_w, "10", vec!["01", "02", "03", "04", "05"], k);

    add(&mut node_w, "11", vec!["06", "07", "08", "09", "10"], k);
    add(&mut node_w, "12", vec!["06", "07", "08", "09", "10"], k);
    add(&mut node_w, "13", vec!["06", "07", "08", "09", "10"], k);
    add(&mut node_w, "14", vec!["06", "07", "08", "09", "10"], k);
    add(&mut node_w, "15", vec!["06", "07", "08", "09", "10"], k);

    add(&mut node_w, "16", vec!["11", "12", "13", "14", "15"], k);
    add(&mut node_w, "17", vec!["11", "12", "13", "14", "15"], k);
    add(&mut node_w, "18", vec!["11", "12", "13", "14", "15"], k);
    add(&mut node_w, "19", vec!["11", "12", "13", "14", "15"], k);
    add(&mut node_w, "20", vec!["11", "12", "13", "14", "15"], k);

    add(&mut node_w, "21", vec!["16", "17", "18", "19", "20"], k);
    add(&mut node_w, "22", vec!["16", "17", "18", "19", "20"], k);
    add(&mut node_w, "23", vec!["16", "17", "18", "19", "20"], k);
    add(&mut node_w, "24", vec!["16", "17", "18", "19", "20"], k);
    add(&mut node_w, "25", vec!["16", "17", "18", "19", "20"], k);

    add(&mut node_w, "26", vec!["21", "22", "23", "24", "25"], k);
    add(&mut node_w, "27", vec!["21", "22", "23", "24", "25"], k);
    add(&mut node_w, "28", vec!["21", "22", "23", "24", "25"], k);
    add(&mut node_w, "29", vec!["21", "22", "23", "24", "25"], k);
    add(&mut node_w, "30", vec!["21", "22", "23", "24", "25"], k);

    add(&mut node_w, "31", vec!["26", "27", "28", "29", "30"], k);
    add(&mut node_w, "32", vec!["26", "27", "28", "29", "30"], k);
    add(&mut node_w, "33", vec!["26", "27", "28", "29", "30"], k);
    add(&mut node_w, "34", vec!["26", "27", "28", "29", "30"], k);
    add(&mut node_w, "35", vec!["26", "27", "28", "29", "30"], k);

    add(&mut node_w, "36", vec!["31", "32", "33", "34", "35"], k);
    add(&mut node_w, "37", vec!["31", "32", "33", "34", "35"], k);
    add(&mut node_w, "38", vec!["31", "32", "33", "34", "35"], k);
    add(&mut node_w, "39", vec!["31", "32", "33", "34", "35"], k);
    add(&mut node_w, "40", vec!["31", "32", "33", "34", "35"], k);

    add(&mut node_w, "41", vec!["36", "37", "38", "39", "40"], k);
    add(&mut node_w, "42", vec!["36", "37", "38", "39", "40"], k);
    add(&mut node_w, "43", vec!["36", "37", "38", "39", "40"], k);
    add(&mut node_w, "44", vec!["36", "37", "38", "39", "40"], k);
    add(&mut node_w, "45", vec!["36", "37", "38", "39", "40"], k);

    assert_eq!(2 + 2, 4);
}

#[test]
fn root_is_blue_at_height_zero() {
    let k: i32 = 3;
    let mut node_w = Node::init("root");
    add(&mut node_w, "Genesis", Vec::new(), k);
    add(&mut node_w, "B", vec!["Genesis"], k);
    add(&mut node_w, "C", vec!["Genesis"], k);
    add(&mut node_w, "D", vec!["B", "C"], k);
    assert_eq!(find_block(&node_w, "Genesis"), Some(0));
    assert!(node_w.blocks[0].is_blue);
    assert_eq!(node_w.blocks[0].height, 0);
    assert!(node_w.blocks[0].prev.is_empty());
    // every other block has at least one parent
    for b in &node_w.blocks[1..] {
        assert!(!b.prev.is_empty());
    }
}

#[test]
fn k_cluster_holds_after_each_classification() {
    let k: i32 = 3;
    let mut node_w = Node::init("cluster");
    let steps: Vec<(&str, Vec<&str>)> = vec![
        ("Genesis", vec![]),
        ("B", vec!["Genesis"]),
        ("C", vec!["Genesis"]),
        ("D", vec!["Genesis"]),
        ("E", vec!["Genesis"]),
        ("F", vec!["B", "C"]),
        ("H", vec!["C", "D", "E"]),
        ("I", vec!["E"]),
        ("J", vec!["F", "H"]),
        ("K", vec!["B", "H", "I"]),
        ("L", vec!["D", "I"]),
        ("M", vec!["F", "K"]),
    ];
    for (name, refs) in steps {
        add(&mut node_w, name, refs, k);
        assert!(check_k_cluster(&node_w, k));
    }
}

#[test]
fn k_cluster_holds_with_zero_bound() {
    let k: i32 = 0;
    let mut node_w = Node::init("cluster0");
    add(&mut node_w, "Genesis", Vec::new(), k);
    add(&mut node_w, "B", vec!["Genesis"], k);
    add(&mut node_w, "C", vec!["Genesis"], k);
    add(&mut node_w, "D", vec!["B", "C"], k);
    add(&mut node_w, "E", vec!["B"], k);
    assert!(check_k_cluster(&node_w, k));
}

#[test]
fn demotion_on_reaching_the_bound() {
    // with k = 1, classifying C puts a second blue block next to B and
    // pushes B's running anticone count to the bound: B is demoted
    let k: i32 = 1;
    let mut node_w = Node::init("demote");
    add(&mut node_w, "Genesis", Vec::new(), k);
    add(&mut node_w, "B", vec!["Genesis"], k);
    let b = find_block(&node_w, "B").unwrap();
    assert!(node_w.blocks[b].is_blue);
    assert_eq!(node_w.blocks[b].size_of_anticone_blue, 0);
    add(&mut node_w, "C", vec!["Genesis"], k);
    let c = find_block(&node_w, "C").unwrap();
    assert!(node_w.blocks[c].is_blue);
    assert_eq!(node_w.blocks[c].size_of_anticone_blue, 1);
    // B was demoted: red, and its counter is back at the sentinel
    assert!(!node_w.blocks[b].is_blue);
    assert_eq!(node_w.blocks[b].size_of_anticone_blue, -1);
    assert!(check_k_cluster(&node_w, k));
}

#[test]
fn cascade_decrements_each_descendant_once() {
    // diamond below B: M is reachable from B along two paths, but the
    // cascade decrements its blue-past counter exactly once
    let k: i32 = 3;
    let mut node_w = Node::init("cascade");
    add(&mut node_w, "Genesis", Vec::new(), k);
    add(&mut node_w, "B", vec!["Genesis"], k);
    add(&mut node_w, "F", vec!["B"], k);
    add(&mut node_w, "H", vec!["B"], k);
    add(&mut node_w, "M", vec!["F", "H"], k);
    let b = find_block(&node_w, "B").unwrap();
    let f = find_block(&node_w, "F").unwrap();
    let h = find_block(&node_w, "H").unwrap();
    let m = find_block(&node_w, "M").unwrap();
    assert!(node_w.blocks[f].is_blue && node_w.blocks[h].is_blue && node_w.blocks[m].is_blue);
    let pf = node_w.blocks[f].size_of_past_blue;
    let ph = node_w.blocks[h].size_of_past_blue;
    let pm = node_w.blocks[m].size_of_past_blue;
    dec_successors_anticone_blue(&mut node_w.blocks, b);
    assert_eq!(node_w.blocks[f].size_of_past_blue, pf - 1);
    assert_eq!(node_w.blocks[h].size_of_past_blue, ph - 1);
    assert_eq!(node_w.blocks[m].size_of_past_blue, pm - 1);
    // the walked block itself is untouched
    assert!(node_w.blocks[b].is_blue);
}

#[test]
fn rejected_insertions_leave_the_dag_unchanged() {
    let k: i32 = 3;
    let mut node_w = Node::init("reject");
    add(&mut node_w, "Genesis", Vec::new(), k);
    add(&mut node_w, "B", vec!["Genesis"], k);
    let size = node_w.size_of_dag;
    let tips = node_w.tips.clone();

    let r = node_add_block("C", &vec!["Nowhere"], &mut node_w, k, true);
    assert_eq!(r, Err(DagError::NotFound));
    assert_eq!(node_w.size_of_dag, size);
    assert_eq!(node_w.tips, tips);

    let r = node_add_block("B", &vec!["Genesis"], &mut node_w, k, true);
    assert_eq!(r, Err(DagError::DuplicateName));
    assert_eq!(node_w.size_of_dag, size);
    assert_eq!(node_w.tips, tips);

    let r = node_add_block("C", &Vec::new(), &mut node_w, k, true);
    assert_eq!(r, Err(DagError::InvalidState));
    assert_eq!(node_w.size_of_dag, size);
    assert_eq!(node_w.tips, tips);
}

#[test]
fn heights_follow_the_longest_parent_chain() {
    let k: i32 = 3;
    let mut node_w = Node::init("heights");
    add(&mut node_w, "Genesis", Vec::new(), k);
    add(&mut node_w, "B", vec!["Genesis"], k);
    add(&mut node_w, "C", vec!["Genesis"], k);
    add(&mut node_w, "F", vec!["B", "C"], k);
    add(&mut node_w, "J", vec!["F", "C"], k);
    let h = |node: &Node, name: &str| node.blocks[find_block(node, name).unwrap()].height;
    assert_eq!(h(&node_w, "Genesis"), 0);
    assert_eq!(h(&node_w, "B"), 1);
    assert_eq!(h(&node_w, "C"), 1);
    assert_eq!(h(&node_w, "F"), 2);
    assert_eq!(h(&node_w, "J"), 3);
    assert_eq!(node_w.height, 3);
    assert_eq!(node_w.size_of_dag, 5);
}

#[test]
fn sorted_listing_is_deterministic_both_ways() {
    let k: i32 = 3;
    let mut node_w = Node::init("sorted");
    add(&mut node_w, "Genesis", Vec::new(), k);
    add(&mut node_w, "B", vec!["Genesis"], k);
    add(&mut node_w, "A", vec!["Genesis"], k);
    add(&mut node_w, "C", vec!["A", "B"], k);
    let sel: Vec<usize> = vec![1, 2, 3];
    let asc = sorted_keys_by_height(&node_w, &sel, false);
    assert_eq!(
        asc,
        vec![
            ("A".to_string(), 1),
            ("B".to_string(), 1),
            ("C".to_string(), 2)
        ]
    );
    let desc = sorted_keys_by_height(&node_w, &sel, true);
    assert_eq!(
        desc,
        vec![
            ("C".to_string(), 2),
            ("B".to_string(), 1),
            ("A".to_string(), 1)
        ]
    );
}

#[test]
fn pruning_removes_everything_related() {
    let k: i32 = 3;
    let mut node_w = Node::init("prune");
    add(&mut node_w, "Genesis", Vec::new(), k);
    add(&mut node_w, "B", vec!["Genesis"], k);
    add(&mut node_w, "C", vec!["Genesis"], k);
    add(&mut node_w, "D", vec!["Genesis"], k);
    add(&mut node_w, "F", vec!["B"], k);
    let b = find_block(&node_w, "B").unwrap();
    let c = find_block(&node_w, "C").unwrap();
    let d = find_block(&node_w, "D").unwrap();
    let f = find_block(&node_w, "F").unwrap();
    let mut set: Vec<usize> = vec![b, c, d, f];
    remove_past_future(&node_w, b, &mut set);
    // B itself and its child F are gone; the unrelated C and D stay
    assert_eq!(set, vec![c, d]);
}

#[test]
fn update_tips_moves_the_frontier() {
    let k: i32 = 3;
    let mut node_w = Node::init("tips");
    let _ = node_add_block("Genesis", &Vec::new(), &mut node_w, k, false);
    update_tips("Genesis", &mut node_w);
    calc_blue("Genesis", &mut node_w, k);
    let _ = node_add_block("B", &vec!["Genesis"], &mut node_w, k, false);
    assert_eq!(node_w.tips, vec![0]);
    update_tips("B", &mut node_w);
    assert_eq!(node_w.tips, vec![1]);
    calc_blue("B", &mut node_w, k);
    assert!(node_w.blocks[1].is_blue);
}

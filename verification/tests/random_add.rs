use blockdag::anticone::{remove_past_future, tips_anticone};
use blockdag::calcblue::calc_blue;
use blockdag::dag::{node_add_block, update_tips, Node};

#[test]
fn test_add_block() {
    let blocks_generating: i32 = 1000;

    let max_classmate_blocks = 5;
    let max_prev_blocks = 5;

    let k: i32 = max_classmate_blocks;

    let mut node_w = Node::init("block add test");

    let _ = node_add_block("Genesis", &Vec::new(), &mut node_w, k, true);

    let _ = node_add_block("B", &vec!["Genesis"], &mut node_w, k, true);
    let _ = node_add_block("C", &vec!["Genesis"], &mut node_w, k, true);
    let _ = node_add_block("D", &vec!["Genesis"], &mut node_w, k, true);
    let _ = node_add_block("E", &vec!["Genesis"], &mut node_w, k, true);

    let mut blocks_generated = 0;

    let mut _height: i32 = 1;
    while blocks_generated < blocks_generating {
        _height += 1;
        let classmate_blocks = rand::random_range(1..=max_classmate_blocks);

        for _classmate in 1..classmate_blocks + 1 {
            let prev_blocks = rand::random_range(1..=max_prev_blocks) as usize;

            let mut references: Vec<String> = Vec::new();

            // take one tip as the first parent
            let tip_index = node_w.tips[0];
            let tip_name_selected = node_w.blocks[tip_index].name.clone();
            references.push(tip_name_selected.clone());

            // fill the remaining parent slots from that tip's anticone,
            // pruning everything related to each picked block
            let mut anticone = tips_anticone(&tip_name_selected, &node_w);

            while references.len() < prev_blocks && anticone.len() > 0 {
                let picked = anticone[0];
                references.push(node_w.blocks[picked].name.clone());
                remove_past_future(&node_w, picked, &mut anticone);
            }

            blocks_generated += 1;

            let mut references_str: Vec<&str> = Vec::new();
            for reference in &references {
                references_str.push(reference);
            }

            let r = node_add_block(
                &blocks_generated.to_string(),
                &references_str,
                &mut node_w,
                k,
                false,
            );
            assert!(r.is_ok());
        }

        // update tips once when a batch of blocks was generated
        let mut classmate_name = blocks_generated;
        for _classmate in 1..classmate_blocks + 1 {
            update_tips(&classmate_name.to_string(), &mut node_w);
            calc_blue(&classmate_name.to_string(), &mut node_w, max_classmate_blocks);
            classmate_name -= 1;
        }
    }

    println!(
        "node={:?},height={},size_of_dag={}",
        node_w.name, node_w.height, node_w.size_of_dag
    );

    assert_eq!(2 + 2, 4);
}

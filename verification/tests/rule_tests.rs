use phrase_trie::rule::{index_array, order_by_distance};

#[test]
fn it_produces_an_index_matrix_with_dims() {
    assert_eq!(
        index_array(vec![3, 3]),
        vec![
            vec![0, 0],
            vec![0, 1],
            vec![0, 2],
            vec![1, 0],
            vec![1, 1],
            vec![1, 2],
            vec![2, 0],
            vec![2, 1],
            vec![2, 2]
        ]
    );
    assert_eq!(
        index_array(vec![2, 2, 2]),
        vec![
            vec![0, 0, 0],
            vec![0, 0, 1],
            vec![0, 1, 0],
            vec![0, 1, 1],
            vec![1, 0, 0],
            vec![1, 0, 1],
            vec![1, 1, 0],
            vec![1, 1, 1]
        ]
    );
}

#[test]
fn it_orders_indices() {
    assert_eq!(
        order_by_distance(vec![
            vec![0, 0],
            vec![0, 1],
            vec![0, 2],
            vec![1, 0],
            vec![1, 1],
            vec![1, 2],
            vec![2, 0],
            vec![2, 1],
            vec![2, 2]
        ]),
        vec![
            vec![0, 0],
            vec![0, 1],
            vec![1, 0],
            vec![0, 2],
            vec![1, 1],
            vec![2, 0],
            vec![1, 2],
            vec![2, 1],
            vec![2, 2]
        ]
    );
}

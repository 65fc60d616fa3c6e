use pyramid::{
    chunk_len, combine_chunk, gen_data, LayerCalc, ParallelSplit, Simple, Vectorization,
    CELL_LIMIT,
};

fn all_strategies(layer: &[u32], rest: &[u32], n: usize) -> Vec<Vec<u32>> {
    let mut outs = Vec::new();
    let mut r = rest.to_vec();
    Simple::algorithm(layer, &mut r, n);
    outs.push(r);
    let mut r = rest.to_vec();
    Vectorization::algorithm(layer, &mut r, n);
    outs.push(r);
    let mut r = rest.to_vec();
    ParallelSplit::<0>::algorithm(layer, &mut r, n);
    outs.push(r);
    let mut r = rest.to_vec();
    ParallelSplit::<1>::algorithm(layer, &mut r, n);
    outs.push(r);
    let mut r = rest.to_vec();
    ParallelSplit::<2>::algorithm(layer, &mut r, n);
    outs.push(r);
    let mut r = rest.to_vec();
    ParallelSplit::<3>::algorithm(layer, &mut r, n);
    outs.push(r);
    let mut r = rest.to_vec();
    ParallelSplit::<4>::algorithm(layer, &mut r, n);
    outs.push(r);
    outs
}

#[test]
fn strategies_fold_the_same_row() {
    let layer = [3, 9, 1, 4, 4, 0, 7];
    let rest = [1, 1, 1, 1, 1, 1];
    for out in all_strategies(&layer, &rest, 7) {
        assert_eq!(out, vec![10, 10, 5, 5, 5, 8]);
    }
}

#[test]
fn strategies_leave_cells_past_the_row() {
    let layer = [2, 5, 3];
    let rest = [10, 20, 30, 40];
    for out in all_strategies(&layer, &rest, 3) {
        assert_eq!(out, vec![15, 25, 30, 40]);
    }
}

#[test]
fn strategies_on_a_single_cell_row() {
    let layer = [8];
    let rest: [u32; 0] = [];
    for out in all_strategies(&layer, &rest, 1) {
        assert!(out.is_empty());
    }
}

#[test]
fn strategies_agree_on_longer_rows() {
    for n in 1..40usize {
        let layer: Vec<u32> = (0..n).map(|i| (i * 7919 % 499) as u32).collect();
        let rest: Vec<u32> = (0..n - 1).map(|i| (i * 104729 % 491) as u32).collect();
        let outs = all_strategies(&layer, &rest, n);
        for out in &outs {
            assert_eq!(out, &outs[0]);
        }
    }
}

#[test]
fn combine_chunk_adds_the_larger_neighbour() {
    let mut out = vec![1, 2, 3];
    combine_chunk(&[4, 0, 9], &[5, 6, 1], &mut out);
    assert_eq!(out, vec![6, 8, 12]);
}

#[test]
fn chunk_len_rounds_up() {
    assert_eq!(chunk_len(10, 3), 4);
    assert_eq!(chunk_len(9, 3), 3);
    assert_eq!(chunk_len(1, 4), 1);
    assert_eq!(chunk_len(7, 0), 7);
    assert_eq!(chunk_len(7, 1), 7);
}

#[test]
fn gen_data_stays_below_the_limit() {
    let data = gen_data(2000);
    assert_eq!(data.len(), 2000);
    assert!(data.iter().all(|v| *v < CELL_LIMIT));
    assert!(gen_data(0).is_empty());
}

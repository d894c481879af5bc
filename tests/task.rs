use concurrency::{
    assemble, assign_worker, plan_tasks, run_task, Matrix, MatrixError, MsgInput, MsgOutput, Vector,
};

#[test]
fn plan_has_one_task_per_cell() {
    let a = Matrix::new(vec![1, 2, 3, 4, 5, 6], 2, 3);
    let b = Matrix::new(vec![10, 11, 20, 21, 30, 31], 3, 2);
    let tasks = plan_tasks(&a, &b).unwrap();
    assert_eq!(tasks.len(), 4);
    let t = tasks.into_iter().nth(1).unwrap();
    assert_eq!(t.idx, 1);
    assert_eq!(t.row.into_vec(), vec![1, 2, 3]);
    assert_eq!(t.col.into_vec(), vec![11, 21, 31]);
}

#[test]
fn plan_rejects_mismatch() {
    let a = Matrix::new(vec![1, 2, 3, 4, 5, 6], 2, 3);
    let b = Matrix::new(vec![1, 2, 3, 4], 2, 2);
    assert!(matches!(plan_tasks(&a, &b), Err(MatrixError::DimensionMismatch)));
}

#[test]
fn task_result_keeps_its_cell() {
    let input = MsgInput::new(5, Vector::new(vec![1, 2]), Vector::new(vec![3, 4]));
    let out = run_task(input).unwrap();
    assert_eq!(out.idx, 5);
    assert_eq!(out.value, 11);
    let bad = MsgInput::new(0, Vector::new(vec![1]), Vector::new(vec![3, 4]));
    assert!(matches!(run_task(bad), Err(MatrixError::DimensionMismatch)));
}

#[test]
fn workers_are_assigned_round_robin() {
    assert_eq!(assign_worker(0, 4), 0);
    assert_eq!(assign_worker(5, 4), 1);
    assert_eq!(assign_worker(7, 1), 0);
    assert_eq!(assign_worker(9, 8), 1);
}

fn arrivals(order: &[usize], values: &[i64]) -> Vec<Option<MsgOutput>> {
    order.iter().map(|&i| Some(MsgOutput::new(i, values[i]))).collect()
}

#[test]
fn assembly_ignores_arrival_order() {
    let values = [140, 146, 320, 335];
    let orders: [[usize; 4]; 4] = [[0, 1, 2, 3], [3, 2, 1, 0], [2, 0, 3, 1], [1, 3, 0, 2]];
    for order in orders.iter() {
        let m = assemble(arrivals(order, &values), 2, 2).unwrap();
        assert_eq!(m.data, vec![140, 146, 320, 335]);
        assert_eq!(m.row, 2);
        assert_eq!(m.col, 2);
    }
}

#[test]
fn assembly_reports_missing_repeated_or_stray_results() {
    let values = [1, 2, 3, 4];
    let mut missing = arrivals(&[0, 1, 2, 3], &values);
    missing[2] = None;
    assert!(matches!(assemble(missing, 2, 2), Err(MatrixError::ChannelFailure)));
    let repeated = arrivals(&[0, 1, 1, 3], &values);
    assert!(matches!(assemble(repeated, 2, 2), Err(MatrixError::ChannelFailure)));
    let short = arrivals(&[0, 1, 2], &values);
    assert!(matches!(assemble(short, 2, 2), Err(MatrixError::ChannelFailure)));
    let mut stray = arrivals(&[0, 1, 2, 3], &values);
    stray[3] = Some(MsgOutput::new(9, 4));
    assert!(matches!(assemble(stray, 2, 2), Err(MatrixError::ChannelFailure)));
}

use rugc::{ScheduledTask, TaskScheduler};

#[test]
fn scheduler_enforces_stable_order() {
    let scheduler = TaskScheduler::new();
    let tasks = vec![
        ScheduledTask { id: 20, payload: 2 },
        ScheduledTask { id: 10, payload: 1 },
    ];

    let out = scheduler.run_deterministic(tasks, |task| task.id);
    assert_eq!(out, vec![10, 20]);
}

#[test]
fn work_stealing_plan_is_reproducible() {
    let scheduler = TaskScheduler::new();
    let tasks = vec![
        ScheduledTask { id: 1, payload: 11 },
        ScheduledTask { id: 2, payload: 12 },
        ScheduledTask { id: 3, payload: 13 },
        ScheduledTask { id: 4, payload: 14 },
        ScheduledTask { id: 5, payload: 15 },
        ScheduledTask { id: 6, payload: 16 },
    ];

    let p1 = scheduler.build_work_stealing_plan(&tasks, 3);
    let p2 = scheduler.build_work_stealing_plan(&tasks, 3);
    assert_eq!(p1, p2);
}

#[test]
fn work_stealing_execution_is_reproducible() {
    let scheduler = TaskScheduler::new();
    let tasks = vec![
        ScheduledTask { id: 30, payload: 3 },
        ScheduledTask { id: 10, payload: 1 },
        ScheduledTask { id: 20, payload: 2 },
        ScheduledTask { id: 40, payload: 4 },
        ScheduledTask { id: 50, payload: 5 },
    ];

    let a = scheduler.run_work_stealing_deterministic(tasks.clone(), 2, |t| t.id * 10);
    let b = scheduler.run_work_stealing_deterministic(tasks, 2, |t| t.id * 10);
    assert_eq!(a, b);
}

#[test]
fn equal_ids_keep_input_order() {
    let scheduler = TaskScheduler::new();
    let tasks = vec![
        ScheduledTask { id: 5, payload: 'a' },
        ScheduledTask { id: 1, payload: 'b' },
        ScheduledTask { id: 5, payload: 'c' },
    ];
    let out = scheduler.run_deterministic(tasks, |t| t.payload);
    assert_eq!(out, vec!['b', 'a', 'c']);
}

#[test]
fn plan_deals_round_robin_and_steals() {
    let scheduler = TaskScheduler::new();
    let tasks: Vec<ScheduledTask<()>> =
        [5u64, 1, 4, 2, 3].iter().map(|&id| ScheduledTask { id, payload: () }).collect();
    // queues: [1, 4], [2, 5], [3]; round 1: 1 2 3; round 2: 4 5
    let plan = scheduler.build_work_stealing_plan(&tasks, 3);
    assert_eq!(plan.worker_count, 3);
    assert_eq!(plan.execution_order, vec![1, 2, 3, 4, 5]);
    // one worker: plain ascending order
    let single = scheduler.build_work_stealing_plan(&tasks, 0);
    assert_eq!(single.worker_count, 1);
    assert_eq!(single.execution_order, vec![1, 2, 3, 4, 5]);
}

#[test]
fn plan_steals_from_longest_queue() {
    let scheduler = TaskScheduler::new();
    let tasks: Vec<ScheduledTask<()>> =
        (1u64..=5).map(|id| ScheduledTask { id, payload: () }).collect();
    // queues: [1, 5], [2], [3], [4]
    // round 1: 1 2 3 4; round 2: worker 0 takes 5
    let plan = scheduler.build_work_stealing_plan(&tasks, 4);
    assert_eq!(plan.execution_order, vec![1, 2, 3, 4, 5]);
    // queues for 2 workers over 1..=6 with 2 extra: [1,3,5],[2,4,6]
    let tasks6: Vec<ScheduledTask<()>> =
        (1u64..=6).map(|id| ScheduledTask { id, payload: () }).collect();
    let plan2 = scheduler.build_work_stealing_plan(&tasks6, 2);
    assert_eq!(plan2.execution_order, vec![1, 2, 3, 4, 5, 6]);
    // 8 workers, 3 tasks: workers 3.. idle, no donor (all queues <= 1)
    let plan3 = scheduler.build_work_stealing_plan(&tasks6[..3], 8);
    assert_eq!(plan3.execution_order, vec![1, 2, 3]);
}

#[test]
fn duplicate_ids_run_the_last_task() {
    let scheduler = TaskScheduler::new();
    let tasks = vec![
        ScheduledTask { id: 2, payload: 'x' },
        ScheduledTask { id: 1, payload: 'y' },
        ScheduledTask { id: 2, payload: 'z' },
    ];
    let out = scheduler.run_work_stealing_deterministic(tasks, 2, |t| t.payload);
    assert_eq!(out, vec!['y', 'z', 'z']);
}

#[test]
fn work_stealing_plan_ignores_task_order() {
    let scheduler = TaskScheduler::new();
    let forward: Vec<ScheduledTask<u8>> = (1..=7).map(|id| ScheduledTask { id, payload: 0 }).collect();
    let backward: Vec<ScheduledTask<u8>> = (1..=7).rev().map(|id| ScheduledTask { id, payload: 1 }).collect();
    for workers in 0..5 {
        let a = scheduler.build_work_stealing_plan(&forward, workers);
        let b = scheduler.build_work_stealing_plan(&backward, workers);
        assert_eq!(a, b);
    }
}

#[test]
fn work_stealing_plan_is_ascending_for_every_worker_count() {
    let scheduler = TaskScheduler::new();
    let ids = [40u64, 10, 70, 20, 60, 30, 50];
    let tasks: Vec<ScheduledTask<u64>> = ids.iter().map(|&id| ScheduledTask { id, payload: id }).collect();
    for workers in 0..10 {
        let plan = scheduler.build_work_stealing_plan(&tasks, workers);
        assert_eq!(plan.execution_order, vec![10, 20, 30, 40, 50, 60, 70]);
        let stolen = scheduler.run_work_stealing_deterministic(tasks.clone(), workers, |t| t.payload * 2);
        let plain = scheduler.run_deterministic(tasks.clone(), |t| t.payload * 2);
        assert_eq!(stolen, plain);
    }
}

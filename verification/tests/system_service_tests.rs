use fruity::system_service::{BeginSystemParams, EndSystemParams, SystemParams, SystemService};

/// The callbacks that a run gives, pool after pool.
fn frame_run(service: &mut SystemService<u32>) -> Vec<Vec<u32>> {
    let batches = service.run();
    batches
        .iter()
        .enumerate()
        .map(|(pool, batch)| batch.iter().map(|system| *service.frame_callback(pool, *system)).collect())
        .collect()
}

fn params(pool_index: usize, ignore_pause: bool) -> Option<SystemParams> {
    Some(SystemParams { pool_index, ignore_pause })
}

#[test]
fn pools_run_by_increasing_index() {
    let mut service = SystemService::new();
    service.add_system("late", "test", 3, params(70, false));
    service.add_system("default", "test", 2, None);
    service.add_system("early", "test", 1, params(5, false));
    service.add_system("early too", "test", 11, params(5, false));
    assert_eq!(frame_run(&mut service), vec![vec![1, 11], vec![2], vec![3]]);
}

#[test]
fn default_params_use_pool_fifty() {
    assert_eq!(SystemParams::default().pool_index, 50);
    assert!(!SystemParams::default().ignore_pause);
    assert_eq!(BeginSystemParams::default().pool_index, 50);
    assert_eq!(EndSystemParams::default().pool_index, 50);
    let mut service = SystemService::new();
    service.add_system("default", "test", 7, None);
    assert_eq!(service.run_pool(50).iter().map(|c| **c).collect::<Vec<u32>>(), vec![7]);
    assert!(service.run_pool(51).is_empty());
}

#[test]
fn ignored_pool_skips_exactly_one_run() {
    let mut service = SystemService::new();
    service.add_system("a", "test", 1, params(10, false));
    service.add_system("b", "test", 2, params(20, false));
    service.ignore_pool_once(10);
    service.ignore_pool_once(99);
    assert_eq!(frame_run(&mut service), vec![vec![], vec![2]]);
    assert_eq!(frame_run(&mut service), vec![vec![1], vec![2]]);
}

#[test]
fn paused_service_runs_only_systems_that_ignore_the_pause() {
    let mut service = SystemService::new();
    service.add_system("a", "test", 1, params(10, false));
    service.add_system("b", "test", 2, params(10, true));
    assert!(!service.is_paused());
    service.set_paused(true);
    assert!(service.is_paused());
    assert_eq!(frame_run(&mut service), vec![vec![2]]);
    service.set_paused(false);
    assert_eq!(frame_run(&mut service), vec![vec![1, 2]]);
}

#[test]
fn added_system_runs_last_of_its_pool() {
    let mut service = SystemService::new();
    service.add_system("a", "test", 1, params(10, false));
    assert_eq!(frame_run(&mut service), vec![vec![1]]);
    service.add_system("b", "test", 2, params(10, false));
    assert_eq!(frame_run(&mut service), vec![vec![1, 2]]);
}

#[test]
fn unload_origin_removes_frame_systems_of_that_origin() {
    let mut service = SystemService::new();
    service.add_system("a", "plugin", 1, params(10, false));
    service.add_system("b", "core", 2, params(10, false));
    service.add_system("c", "plugin", 3, params(20, false));
    service.add_begin_system("bp", "plugin", 4, Some(BeginSystemParams { pool_index: 10 }));
    service.add_begin_system("bc", "core", 5, Some(BeginSystemParams { pool_index: 10 }));
    service.add_end_system("ep", "plugin", 6, Some(EndSystemParams { pool_index: 30 }));
    service.add_end_system("ec", "core", 7, Some(EndSystemParams { pool_index: 40 }));
    service.unload_origin("plugin");
    assert_eq!(frame_run(&mut service), vec![vec![2], vec![]]);
    let begin = service.run_begin();
    let begin_callbacks: Vec<Vec<u32>> = begin
        .iter()
        .enumerate()
        .map(|(pool, batch)| batch.iter().map(|s| *service.begin_callback(pool, *s)).collect())
        .collect();
    assert_eq!(begin_callbacks, vec![vec![5]]);
    let end = service.run_end();
    let end_callbacks: Vec<Vec<u32>> = end
        .iter()
        .enumerate()
        .map(|(pool, batch)| batch.iter().map(|s| *service.end_callback(pool, *s)).collect())
        .collect();
    assert_eq!(end_callbacks, vec![vec![], vec![7]]);
}

#[test]
fn begin_and_end_systems_run_by_pool() {
    let mut service = SystemService::new();
    service.add_begin_system("b2", "test", 2, Some(BeginSystemParams { pool_index: 60 }));
    service.add_begin_system("b1", "test", 1, None);
    service.add_end_system("e1", "test", 5, Some(EndSystemParams { pool_index: 1 }));
    service.ignore_begin_pool_once(60);
    let begin = service.run_begin();
    let begin_callbacks: Vec<Vec<u32>> = begin
        .iter()
        .enumerate()
        .map(|(pool, batch)| batch.iter().map(|s| *service.begin_callback(pool, *s)).collect())
        .collect();
    assert_eq!(begin_callbacks, vec![vec![1], vec![]]);
    assert_eq!(service.run_pool_begin(60).iter().map(|c| **c).collect::<Vec<u32>>(), vec![2]);
    let end = service.run_end();
    assert_eq!(end.len(), 1);
    assert_eq!(*service.end_callback(0, end[0][0]), 5);
    service.ignore_end_pool_once(1);
    assert_eq!(service.run_end(), vec![Vec::<usize>::new()]);
    assert_eq!(service.run_poll_end(1).iter().map(|c| **c).collect::<Vec<u32>>(), vec![5]);
}

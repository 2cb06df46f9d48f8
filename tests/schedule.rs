use julia_render::{assemble_grid, merge_timings, partition, worker_count, EscapeResult, TimingRecord};

#[test]
fn worker_count_keeps_one_core() {
    assert_eq!(worker_count(0), 1);
    assert_eq!(worker_count(1), 1);
    assert_eq!(worker_count(2), 1);
    assert_eq!(worker_count(8), 7);
}

#[test]
fn partition_is_round_robin() {
    assert_eq!(partition(7, 3), vec![vec![0, 3, 6], vec![1, 4], vec![2, 5]]);
    assert_eq!(partition(2, 4), vec![vec![0], vec![1], vec![], vec![]]);
    assert_eq!(partition(0, 2), vec![Vec::<usize>::new(), vec![]]);
    assert_eq!(partition(3, 1), vec![vec![0, 1, 2]]);
}

#[test]
fn partition_covers_each_unit_once() {
    for n in 0..40usize {
        for workers in 1..7usize {
            let groups = partition(n, workers);
            assert_eq!(groups.len(), workers);
            let mut all: Vec<usize> = groups.into_iter().flatten().collect();
            all.sort();
            assert_eq!(all, (0..n).collect::<Vec<usize>>());
        }
    }
}

#[test]
fn merged_timings_keep_every_record() {
    let a = vec![TimingRecord { frame: 0, micros: 10 }, TimingRecord { frame: 2, micros: 30 }];
    let b = vec![];
    let c = vec![TimingRecord { frame: 1, micros: 20 }];
    let merged = merge_timings(vec![a, b, c]);
    assert_eq!(
        merged,
        vec![
            TimingRecord { frame: 0, micros: 10 },
            TimingRecord { frame: 2, micros: 30 },
            TimingRecord { frame: 1, micros: 20 },
        ]
    );
    let mut frames: Vec<u32> = merged.iter().map(|r| r.frame).collect();
    frames.sort();
    assert_eq!(frames, vec![0, 1, 2]);
}

#[test]
fn assemble_places_results_by_coordinate() {
    let records = vec![
        (1, 0, EscapeResult::Escaped(3)),
        (0, 1, EscapeResult::Escaped(1)),
        (5, 5, EscapeResult::Escaped(9)),
        (1, 0, EscapeResult::Escaped(4)),
    ];
    assert_eq!(
        assemble_grid(2, 2, &records),
        vec![EscapeResult::Bounded, EscapeResult::Escaped(4), EscapeResult::Escaped(1), EscapeResult::Bounded]
    );
}

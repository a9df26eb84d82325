use timely::config::Configuration;
use timely::bootstrap::connections_to_accept;
use timely::bootstrap::peers_to_dial;
use timely::bootstrap::worker_indices;

#[test]
fn single_thread_mode() {
    let r = Configuration::assemble(1, 0, 1, None, false);
    assert!(matches!(r, Ok(Configuration::Thread)));
}

#[test]
fn zero_threads_still_single_thread_mode() {
    let r = Configuration::assemble(0, 0, 1, None, false);
    assert!(matches!(r, Ok(Configuration::Thread)));
}

#[test]
fn process_mode_for_several_threads() {
    let r = Configuration::assemble(3, 0, 1, None, false);
    assert!(matches!(r, Ok(Configuration::Process(3))));
}

#[test]
fn cluster_mode_synthesizes_addresses() {
    let r = Configuration::assemble(2, 1, 3, None, true);
    match r {
        Ok(Configuration::Cluster(threads, process, addresses, report)) => {
            assert_eq!(threads, 2);
            assert_eq!(process, 1);
            assert!(report);
            assert_eq!(
                addresses,
                vec![
                    "localhost:2101".to_owned(),
                    "localhost:2102".to_owned(),
                    "localhost:2103".to_owned()
                ]
            );
        }
        other => panic!("expected cluster mode, got {:?}", other.is_ok()),
    }
}

#[test]
fn cluster_mode_truncates_hostfile_lines() {
    let lines = vec![
        "a:1".to_owned(),
        "b:2".to_owned(),
        "c:3".to_owned(),
    ];
    let r = Configuration::assemble(1, 0, 2, Some(lines), false);
    match r {
        Ok(Configuration::Cluster(_, _, addresses, _)) => {
            assert_eq!(addresses, vec!["a:1".to_owned(), "b:2".to_owned()]);
        }
        other => panic!("expected cluster mode, got {:?}", other.is_ok()),
    }
}

#[test]
fn too_few_hostfile_lines_is_an_error() {
    let lines = vec!["a:1".to_owned()];
    let r = Configuration::assemble(1, 0, 2, Some(lines), false);
    assert!(r.is_err());
}

#[test]
fn out_of_range_process_is_an_error() {
    let r = Configuration::assemble(1, 2, 2, None, false);
    assert!(r.is_err());
    let r = Configuration::assemble(1, 0, 0, None, false);
    assert!(r.is_err());
}

#[test]
fn worker_counts_per_mode() {
    let thread = Configuration::Thread;
    assert_eq!(thread.local_threads(), 1);
    assert_eq!(thread.peers(), Some(1));
    let process = Configuration::Process(4);
    assert_eq!(process.local_threads(), 4);
    assert_eq!(process.peers(), Some(4));
    let cluster = Configuration::Cluster(3, 1, vec!["a".to_owned(), "b".to_owned()], false);
    assert_eq!(cluster.local_threads(), 3);
    assert_eq!(cluster.peers(), Some(6));
}

#[test]
fn worker_indices_are_contiguous_per_process() {
    assert_eq!(worker_indices(3, 1, 2), vec![3, 4, 5]);
    assert_eq!(worker_indices(2, 0, 2), vec![0, 1]);
}

#[test]
fn connection_policy_covers_each_pair_once() {
    let n = 4;
    assert_eq!(peers_to_dial(0, n), vec![1, 2, 3]);
    assert_eq!(peers_to_dial(2, n), vec![3]);
    assert_eq!(peers_to_dial(3, n), vec![]);
    for i in 0..n {
        assert_eq!(connections_to_accept(i), i);
        for j in 0..n {
            if i < j {
                let dials = peers_to_dial(i, n).contains(&j);
                let dialed_back = peers_to_dial(j, n).contains(&i);
                assert!(dials && !dialed_back);
            }
        }
    }
}

use dedup::fingerprint::{bytes_equal, fingerprint, Entry, Winner};
use dedup::merge::{concat_winners, merge_winners};
use dedup::partition::{chunk_size, partition, partition_range};
use dedup::run::{dedup_listing, RunResult};
use dedup::worker::{dedup_partition, find_digest};

fn file(content: &str) -> Entry {
    Entry::File(fingerprint(&content.as_bytes().to_vec()))
}

fn fp(content: &str) -> Vec<u8> {
    fingerprint(&content.as_bytes().to_vec())
}

fn survivor_digests(r: &RunResult) -> Vec<Vec<u8>> {
    let mut d: Vec<Vec<u8>> = r.survivors.iter().map(|w| w.digest.clone()).collect();
    d.sort();
    d
}

/// The listing left on disk after a run: every entry but the deleted ones.
fn remaining(listing: &[Entry], r: &RunResult) -> Vec<Entry> {
    listing
        .iter()
        .enumerate()
        .filter(|(k, _)| !r.deletions.contains(k))
        .map(|(_, e)| match e {
            Entry::Directory => Entry::Directory,
            Entry::Unreadable => Entry::Unreadable,
            Entry::File(d) => Entry::File(d.clone()),
        })
        .collect()
}

#[test]
fn chunk_size_rounds_up() {
    assert_eq!(chunk_size(10, 4), 3);
    assert_eq!(chunk_size(12, 4), 3);
    assert_eq!(chunk_size(0, 4), 0);
    assert_eq!(chunk_size(3, 8), 1);
    assert_eq!(chunk_size(7, 1), 7);
}

#[test]
fn partition_last_worker_gets_fewer() {
    assert_eq!(partition(10, 4), vec![(0, 3), (3, 6), (6, 9), (9, 10)]);
    assert_eq!(partition_range(10, 4, 3), (9, 10));
}

#[test]
fn partition_trailing_workers_empty() {
    assert_eq!(
        partition(3, 8),
        vec![(0, 1), (1, 2), (2, 3), (3, 3), (3, 3), (3, 3), (3, 3), (3, 3)]
    );
    assert_eq!(partition(5, 4), vec![(0, 2), (2, 4), (4, 5), (5, 5)]);
}

#[test]
fn partition_of_nothing() {
    assert_eq!(partition(0, 3), vec![(0, 0), (0, 0), (0, 0)]);
}

#[test]
fn partition_covers_each_index_once() {
    for n in 0..40usize {
        for w in 1..10usize {
            let ranges = partition(n, w);
            assert_eq!(ranges.len(), w);
            let mut seen = vec![0usize; n];
            for (lo, hi) in ranges {
                assert!(lo <= hi && hi <= n);
                for x in lo..hi {
                    seen[x] += 1;
                }
            }
            assert!(seen.iter().all(|c| *c == 1));
        }
    }
}

#[test]
fn fingerprint_is_sixteen_bytes_and_deterministic() {
    let a = fp("X");
    assert_eq!(a.len(), 16);
    assert_eq!(a, fp("X"));
    assert_ne!(a, fp("Y"));
    assert_ne!(a, b"X".to_vec());
    let empty = fingerprint(&Vec::new());
    assert_eq!(empty.len(), 16);
    assert_ne!(empty, fp("X"));
}

#[test]
fn bytes_equal_compares_contents() {
    assert!(bytes_equal(&vec![1, 2, 3], &vec![1, 2, 3]));
    assert!(!bytes_equal(&vec![1, 2, 3], &vec![1, 2, 4]));
    assert!(!bytes_equal(&vec![1, 2], &vec![1, 2, 3]));
    assert!(bytes_equal(&vec![], &vec![]));
}

#[test]
fn find_digest_finds_position() {
    let ws = vec![
        Winner { digest: fp("A"), index: 4 },
        Winner { digest: fp("B"), index: 7 },
    ];
    assert_eq!(find_digest(&ws, &fp("B")), Some(1));
    assert_eq!(find_digest(&ws, &fp("C")), None);
}

#[test]
fn worker_keeps_last_duplicate() {
    let slice = vec![file("X"), file("X"), file("Y")];
    let r = dedup_partition(5, &slice);
    assert_eq!(r.deletions, vec![5]);
    assert_eq!(r.winners.len(), 2);
    assert_eq!(r.winners[0].digest, fp("X"));
    assert_eq!(r.winners[0].index, 6);
    assert_eq!(r.winners[1].digest, fp("Y"));
    assert_eq!(r.winners[1].index, 7);
}

#[test]
fn worker_deletes_in_eviction_order() {
    let slice = vec![file("A"), file("B"), file("B"), file("A"), file("A")];
    let r = dedup_partition(0, &slice);
    assert_eq!(r.deletions, vec![1, 0, 3]);
    assert_eq!(r.winners.len(), 2);
    assert_eq!(r.winners[0].index, 4);
    assert_eq!(r.winners[1].index, 2);
}

#[test]
fn worker_skips_directories_and_unreadable() {
    let slice = vec![Entry::Directory, file("X"), Entry::Unreadable, file("X")];
    let r = dedup_partition(0, &slice);
    assert_eq!(r.deletions, vec![1]);
    assert_eq!(r.winners.len(), 1);
    assert_eq!(r.winners[0].index, 3);
}

#[test]
fn merge_keeps_first_worker() {
    let a = dedup_partition(0, &vec![file("X"), file("Y")]);
    let b = dedup_partition(2, &vec![file("Y"), file("Z")]);
    let flat = concat_winners(&vec![a, b]);
    assert_eq!(flat.len(), 4);
    let m = merge_winners(&flat);
    assert_eq!(m.deletions, vec![2]);
    let kept: Vec<usize> = m.survivors.iter().map(|w| w.index).collect();
    assert_eq!(kept, vec![0, 1, 3]);
}

#[test]
fn scenario_two_equal_one_distinct() {
    let listing = vec![file("X"), file("X"), file("Y")];
    for workers in 1..5usize {
        let r = dedup_listing(&listing, workers);
        assert_eq!(r.survivors.len(), 2);
        assert_eq!(r.deletions.len(), 1);
        let mut expected = vec![fp("X"), fp("Y")];
        expected.sort();
        assert_eq!(survivor_digests(&r), expected);
    }
}

#[test]
fn scenario_empty_directory() {
    let r = dedup_listing(&Vec::new(), 4);
    assert_eq!(r.survivors.len(), 0);
    assert_eq!(r.deletions.len(), 0);
}

#[test]
fn scenario_more_workers_than_entries() {
    let listing = vec![file("a"), file("b"), file("c")];
    let r = dedup_listing(&listing, 8);
    assert_eq!(r.survivors.len(), 3);
    assert!(r.deletions.is_empty());
}

#[test]
fn scenario_subdirectory_is_skipped() {
    let listing = vec![file("X"), Entry::Directory, file("X")];
    for workers in 1..4usize {
        let r = dedup_listing(&listing, workers);
        assert!(!r.deletions.contains(&1));
        assert!(r.survivors.iter().all(|w| w.index != 1));
        assert_eq!(r.survivors.len(), 1);
        assert_eq!(r.deletions.len(), 1);
    }
}

#[test]
fn cross_partition_duplicates_removed() {
    let listing = vec![file("X"), file("Y"), file("Y"), file("X"), file("Z"), file("X")];
    let r = dedup_listing(&listing, 3);
    assert_eq!(r.survivors.len(), 3);
    let mut dels = r.deletions.clone();
    dels.sort();
    assert_eq!(dels.len(), 3);
    let mut kept: Vec<usize> = r.survivors.iter().map(|w| w.index).collect();
    kept.sort();
    assert_eq!(kept, vec![0, 1, 4]);
    let mut all: Vec<usize> = kept.iter().chain(dels.iter()).copied().collect();
    all.sort();
    assert_eq!(all, vec![0, 1, 2, 3, 4, 5]);
}

#[test]
fn second_run_deletes_nothing() {
    let listing = vec![
        file("X"), file("X"), Entry::Unreadable, file("Y"), Entry::Directory, file("X"), file("Y"),
    ];
    for workers in 1..6usize {
        let first = dedup_listing(&listing, workers);
        let rest = remaining(&listing, &first);
        let second = dedup_listing(&rest, workers);
        assert!(second.deletions.is_empty());
        assert_eq!(second.survivors.len(), first.survivors.len());
    }
}

#[test]
fn remaining_equals_distinct_fingerprints() {
    let listing = vec![file("A"), file("B"), file("A"), Entry::Unreadable, file("C"), file("B")];
    let r = dedup_listing(&listing, 2);
    assert_eq!(r.survivors.len(), 3);
    assert_eq!(r.survivors.len() + r.deletions.len(), 5);
}

#[test]
fn run_keeps_last_of_first_range() {
    let listing = vec![file("X"), file("X"), file("Y"), file("X")];
    let one = dedup_listing(&listing, 1);
    let mut kept: Vec<usize> = one.survivors.iter().map(|w| w.index).collect();
    kept.sort();
    assert_eq!(kept, vec![2, 3]);
    let two = dedup_listing(&listing, 2);
    let mut kept: Vec<usize> = two.survivors.iter().map(|w| w.index).collect();
    kept.sort();
    assert_eq!(kept, vec![1, 2]);
    let mut dels = two.deletions.clone();
    dels.sort();
    assert_eq!(dels, vec![0, 3]);
}

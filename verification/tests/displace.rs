use ptr_hash::bucket_idx::BucketIdx;
use ptr_hash::displace::PtrHash;
use ptr_hash::hasher::{PilotHasher, RemHasher};
use ptr_hash::placement::Failure;
use ptr_hash::shard::{sum_pilots, ShardTotals};
use ptr_hash::sorted_buckets::{BucketStat, SortedBuckets};
use ptr_hash::taken::Taken;
use ptr_hash::util::has_duplicates;

fn ptr_hash(seed: u64, s: usize, b: usize, parts_per_shard: usize) -> PtrHash<RemHasher> {
    PtrHash { s, b, parts_per_shard, hasher: RemHasher { seed, s } }
}

fn bits(taken: &Taken) -> Vec<bool> {
    (0..taken.len()).map(|i| taken.get(i)).collect()
}

fn used(taken: &Taken) -> Vec<usize> {
    (0..taken.len()).filter(|&i| taken.get(i)).collect()
}

fn mix(i: u64) -> u64 {
    let mut z = i.wrapping_mul(0x9e3779b97f4a7c15).wrapping_add(0x9e3779b97f4a7c15);
    z = (z ^ (z >> 30)).wrapping_mul(0xbf58476d1ce4e5b9);
    z = (z ^ (z >> 27)).wrapping_mul(0x94d049bb133111eb);
    z ^ (z >> 31)
}

/// `n` hashes in `b` buckets, the largest bucket first.
fn part(n: u64, b: usize, first_key: u64) -> (Vec<u64>, SortedBuckets) {
    let mut buckets: Vec<Vec<u64>> = vec![vec![]; b];
    for i in 0..n {
        let h = mix(first_key + i);
        buckets[((h >> 32) * b as u64 >> 32) as usize].push(h);
    }
    sorted_part(buckets)
}

fn sorted_part(buckets: Vec<Vec<u64>>) -> (Vec<u64>, SortedBuckets) {
    let mut hashes = vec![];
    let mut starts = vec![0u32];
    for bucket in &buckets {
        hashes.extend(bucket.iter().copied());
        starts.push(hashes.len() as u32);
    }
    let mut order: Vec<BucketIdx> = (0..buckets.len() as u32).map(BucketIdx).collect();
    order.sort_by_key(|b| std::cmp::Reverse(buckets[b.0 as usize].len()));
    (hashes, SortedBuckets { starts, order })
}

/// The search, written down once more without bit vectors and early exits.
fn model(
    ph: &PtrHash<RemHasher>,
    hashes: &[u64],
    sorted: &SortedBuckets,
    pilots: &mut [u8],
    taken: &mut [bool],
) -> Option<usize> {
    let slots_of = |b: usize, p: u64| -> Vec<usize> {
        let hp = ph.hasher.hash_pilot(p);
        hashes[sorted.starts[b] as usize..sorted.starts[b + 1] as usize]
            .iter()
            .map(|&hx| ph.hasher.slot_in_part_hp(hx, hp))
            .collect()
    };
    let distinct = |v: &[usize]| (0..v.len()).all(|i| !v[..i].contains(&v[i]));
    let len = |b: usize| (sorted.starts[b + 1] - sorted.starts[b]) as usize;
    let mut owner: Vec<Option<usize>> = vec![None; ph.s];
    let mut total = 0;
    for new_b in sorted.order.iter().map(|b| b.0 as usize) {
        if len(new_b) == 0 {
            pilots[new_b] = 0;
            continue;
        }
        let mut displacements = 0usize;
        let mut stack = vec![new_b];
        let mut recent = [Some(new_b), None, None, None];
        let mut recent_idx = 0;
        while let Some(b) = stack.pop() {
            if displacements > ph.s && displacements.is_power_of_two() && displacements >= 10 * ph.s
            {
                return None;
            }
            let free = (0..256).find(|&p| {
                let v = slots_of(b, p);
                distinct(&v) && v.iter().all(|&x| !taken[x])
            });
            if let Some(p) = free {
                pilots[b] = p as u8;
                for x in slots_of(b, p) {
                    owner[x] = Some(b);
                    taken[x] = true;
                }
                continue;
            }
            let mut best: Option<(usize, u64)> = None;
            for delta in 0..256 {
                let p = (pilots[b] as u64 + 1 + delta) % 256;
                let v = slots_of(b, p);
                let hit: Vec<usize> = v.iter().filter_map(|&x| owner[x]).collect();
                if !distinct(&v) || hit.iter().any(|&o| recent.contains(&Some(o))) {
                    continue;
                }
                let score: usize = hit.iter().map(|&o| len(o) * len(o)).sum();
                if score > 0 && best.is_some_and(|(least, _)| score >= least) {
                    continue;
                }
                best = Some((score, p));
                if score == len(new_b) * len(new_b) {
                    break;
                }
            }
            let (_, p) = best?;
            pilots[b] = p as u8;
            for x in slots_of(b, p) {
                if let Some(o) = owner[x] {
                    assert_ne!(o, b);
                    stack.push(o);
                    displacements += 1;
                    for y in slots_of(o, pilots[o] as u64) {
                        owner[y] = None;
                        taken[y] = false;
                    }
                }
                owner[x] = Some(b);
                taken[x] = true;
            }
            recent_idx = (recent_idx + 1) % 4;
            recent[recent_idx] = Some(b);
        }
        total += displacements;
    }
    Some(total)
}

/// All slots of the part's keys, which must differ.
fn key_slots(
    ph: &PtrHash<RemHasher>,
    hashes: &[u64],
    sorted: &SortedBuckets,
    pilots: &[u8],
) -> Vec<usize> {
    let mut all = vec![];
    for b in 0..sorted.starts.len() - 1 {
        let hp = ph.hasher.hash_pilot(pilots[b] as u64);
        for i in sorted.starts[b] as usize..sorted.starts[b + 1] as usize {
            all.push(ph.hasher.slot_in_part_hp(hashes[i], hp));
        }
    }
    all
}

#[test]
fn hasher_mixes_the_seed_and_reduces() {
    let hasher = RemHasher { seed: 0, s: 7 };
    assert_eq!(hasher.hash_pilot(0), 0);
    assert_eq!(hasher.hash_pilot(1), 5871781006564002453);
    assert_eq!(hasher.hash_pilot(4), 5040379952546458196);
    assert_eq!(RemHasher { seed: 3, s: 7 }.hash_pilot(2), hasher.hash_pilot(1));
    assert_eq!(hasher.slot_in_part_hp(10, 0), 3);
    assert_eq!(hasher.slot_in_part_hp(6, 3), 5);
}

#[test]
fn taken_starts_free_and_keeps_what_is_set() {
    let mut taken = Taken::new(70);
    assert_eq!(taken.len(), 70);
    assert!(bits(&taken).iter().all(|&bit| !bit));
    taken.set(3, true);
    taken.set(69, true);
    assert_eq!(used(&taken), vec![3, 69]);
    taken.set(3, false);
    assert_eq!(used(&taken), vec![69]);
    assert!(!taken.get(3) && taken.get(69));
    assert_eq!(Taken::new(0).len(), 0);
}

#[test]
fn bucket_idx_tells_buckets_from_none() {
    assert!(BucketIdx::none().is_none());
    assert!(!BucketIdx::none().is_some());
    assert!(BucketIdx(5).is_some() && !BucketIdx(5).is_none());
    assert_eq!(BucketIdx(5).index(), 5);
}

#[test]
fn has_duplicates_sorts_and_compares() {
    let mut v = vec![5, 1, 9, 0];
    assert!(!has_duplicates(&mut v));
    assert_eq!(v, vec![0, 1, 5, 9]);
    let mut v = vec![5, 1, 9, 1, 0];
    assert!(has_duplicates(&mut v));
    assert_eq!(v, vec![0, 1, 1, 5, 9]);
    assert!(!has_duplicates(&mut vec![]));
    assert!(!has_duplicates(&mut vec![4]));
    assert!(has_duplicates(&mut vec![4, 4]));
}

#[test]
fn try_take_pilot_takes_free_slots() {
    let ph = ptr_hash(0, 7, 1, 1);
    let mut taken = Taken::new(7);
    taken.set(5, true);
    assert!(ph.try_take_pilot(&[1, 2, 3], 0, &mut taken));
    assert_eq!(used(&taken), vec![1, 2, 3, 5]);
    assert!(ph.try_take_pilot(&[], 0, &mut taken));
    assert_eq!(used(&taken), vec![1, 2, 3, 5]);
}

#[test]
fn try_take_pilot_backtracks_on_a_collision() {
    let ph = ptr_hash(0, 7, 1, 1);
    let mut taken = Taken::new(7);
    taken.set(5, true);
    // 8 and 1 share slot 1.
    assert!(!ph.try_take_pilot(&[1, 2, 8], 0, &mut taken));
    assert_eq!(used(&taken), vec![5]);
    // Slot 5 is in use.
    assert!(!ph.try_take_pilot(&[1, 2, 5, 6], 0, &mut taken));
    assert_eq!(used(&taken), vec![5]);
}

#[test]
fn find_pilot_takes_the_first_that_fits() {
    let ph = ptr_hash(0, 7, 1, 1);
    let mut taken = Taken::new(7);
    taken.set(2, true);
    // Pilots 0 and 1 hit slot 2, and pilot 2 gives slots 1, 5 and 6.
    assert_eq!(
        ph.find_pilot(256, &[1, 2, 3], &mut taken),
        Some((2, 11743562013128004906))
    );
    assert_eq!(used(&taken), vec![1, 2, 5, 6]);
}

#[test]
fn find_pilot_skips_pilots_that_merge_two_keys() {
    let ph = ptr_hash(0, 7, 1, 1);
    let mut taken = Taken::new(7);
    // Under pilot 0 both keys have slot 0, under pilot 1 they have slots 0 and 4.
    let found = ph.find_pilot_array::<2>(256, &[0, 7], &mut taken);
    assert_eq!(found, Some((1, 5871781006564002453)));
    assert_eq!(used(&taken), vec![0, 4]);
}

#[test]
fn find_pilot_respects_the_limit() {
    let ph = ptr_hash(0, 7, 1, 1);
    let mut taken = Taken::new(7);
    assert_eq!(ph.find_pilot(1, &[0, 7], &mut taken), None);
    assert_eq!(ph.find_pilot(0, &[1], &mut taken), None);
    assert_eq!(used(&taken), vec![]);
    assert_eq!(ph.find_pilot(1, &[], &mut taken), Some((0, 0)));
    assert_eq!(used(&taken), vec![]);
}

#[test]
fn find_pilot_agrees_for_all_bucket_sizes() {
    for len in 0..20u64 {
        for round in 0..20u64 {
            let ph = ptr_hash(round, 97, 1, 1);
            let bucket: Vec<u64> = (0..len).map(|i| mix(1000 * round + i)).collect();
            let mut a = Taken::new(97);
            let mut b = Taken::new(97);
            for i in 0..30 {
                let x = (mix(5000 + 100 * round + i) % 97) as usize;
                a.set(x, true);
                b.set(x, true);
            }
            let before = bits(&a);
            let found = ph.find_pilot(256, &bucket, &mut a);
            assert_eq!(found, ph.find_pilot_slice(256, &bucket, &mut b));
            assert_eq!(bits(&a), bits(&b));
            let fits = |p: u64| {
                let hp = ph.hasher.hash_pilot(p);
                let v: Vec<usize> =
                    bucket.iter().map(|&hx| ph.hasher.slot_in_part_hp(hx, hp)).collect();
                v.iter().all(|&x| !before[x]) && (0..v.len()).all(|i| !v[..i].contains(&v[i]))
            };
            assert_eq!(found.map(|(p, _)| p), (0..256).find(|&p| fits(p)));
        }
    }
}

#[test]
fn displace_part_without_displacement() {
    let (hashes, sorted) = part(5, 3, 0);
    let ph = ptr_hash(0, 5, 3, 1);
    assert!(sorted.is_valid(hashes.len()));
    let mut pilots = vec![0u8; 3];
    let mut taken = Taken::new(5);
    assert_eq!(ph.displace_part(&hashes, &sorted, &mut pilots, &mut taken), Some(0));
    assert_eq!(pilots, vec![0, 7, 1]);
    assert_eq!(used(&taken), vec![0, 1, 2, 3, 4]);
}

#[test]
fn displace_part_with_a_chain_of_displacements() {
    let (hashes, sorted) = part(50, 20, 18_000);
    let ph = ptr_hash(18, 50, 20, 1);
    let mut pilots = vec![0u8; 20];
    let mut taken = Taken::new(50);
    assert_eq!(ph.displace_part(&hashes, &sorted, &mut pilots, &mut taken), Some(13));
    assert_eq!(
        pilots,
        vec![1, 31, 0, 63, 2, 189, 68, 2, 0, 0, 135, 0, 22, 0, 95, 243, 90, 247, 21, 0]
    );
    assert_eq!(sum_pilots(&pilots), 1209);
    let mut slots = key_slots(&ph, &hashes, &sorted, &pilots);
    assert!(!has_duplicates(&mut slots));
    assert_eq!(slots, (0..50).collect::<Vec<_>>());
}

#[test]
fn displace_part_aborts_a_long_chain() {
    let (hashes, sorted) = part(10, 10, 0);
    let ph = ptr_hash(0, 9, 10, 1);
    let mut pilots = vec![0u8; 10];
    let mut taken = Taken::new(9);
    assert_eq!(ph.displace_part(&hashes, &sorted, &mut pilots, &mut taken), None);
    assert_eq!(pilots, vec![157, 0, 134, 190, 183, 0, 0, 172, 144, 0]);
}

#[test]
fn displace_part_fails_on_indistinguishable_keys() {
    let (hashes, sorted) = sorted_part(vec![vec![3], vec![77, 5, 77]]);
    let ph = ptr_hash(1, 100, 2, 1);
    let mut pilots = vec![9u8; 2];
    let mut taken = Taken::new(100);
    assert_eq!(ph.displace_part(&hashes, &sorted, &mut pilots, &mut taken), None);
    assert_eq!(pilots, vec![9, 9]);
    assert_eq!(used(&taken), vec![]);
}

#[test]
fn displace_part_gives_empty_buckets_pilot_zero() {
    let (hashes, sorted) = sorted_part(vec![vec![], vec![1, 2], vec![]]);
    let ph = ptr_hash(0, 7, 3, 1);
    let mut pilots = vec![9u8; 3];
    let mut taken = Taken::new(7);
    assert_eq!(ph.displace_part(&hashes, &sorted, &mut pilots, &mut taken), Some(0));
    assert_eq!(pilots, vec![0, 0, 0]);
    assert_eq!(used(&taken), vec![1, 2]);
}

#[test]
fn displace_part_leaves_other_buckets_alone() {
    let (hashes, mut sorted) = sorted_part(vec![vec![1], vec![2], vec![3]]);
    sorted.order = vec![BucketIdx(1)];
    let ph = ptr_hash(0, 7, 3, 1);
    let mut pilots = vec![9u8; 4];
    let mut taken = Taken::new(9);
    assert_eq!(ph.displace_part(&hashes, &sorted, &mut pilots, &mut taken), Some(0));
    assert_eq!(pilots, vec![9, 0, 9, 9]);
    assert_eq!(used(&taken), vec![2]);
}

#[test]
fn displace_part_is_perfect_and_agrees_with_the_model() {
    let mut succeeded = 0;
    let mut displaced = 0;
    for (n, b, s) in [
        (1, 1, 1),
        (5, 3, 5),
        (10, 10, 9),
        (12, 9, 12),
        (20, 4, 19),
        (50, 20, 50),
        (100, 30, 101),
        (150, 50, 151),
        (300, 90, 303),
    ] {
        for seed in 0..12u64 {
            let (hashes, sorted) = part(n, b, 1000 * seed);
            let ph = ptr_hash(seed, s, b, 1);
            assert!(sorted.is_valid(hashes.len()));
            let mut pilots: Vec<u8> = (0..b).map(|i| (i as u64 * seed) as u8).collect();
            let mut expected_pilots = pilots.clone();
            let mut taken = Taken::new(s);
            let mut expected_taken = vec![false; s];
            let total = ph.displace_part(&hashes, &sorted, &mut pilots, &mut taken);
            let expected =
                model(&ph, &hashes, &sorted, &mut expected_pilots, &mut expected_taken);
            assert_eq!(total, expected);
            assert_eq!(pilots, expected_pilots);
            assert_eq!(bits(&taken), expected_taken);
            assert!(n as usize <= s || total.is_none());
            if let Some(count) = total {
                succeeded += 1;
                displaced += count;
                let mut slots = key_slots(&ph, &hashes, &sorted, &pilots);
                assert!(!has_duplicates(&mut slots));
                assert_eq!(slots, used(&taken));
            }
        }
    }
    assert!(succeeded > 30 && displaced > 50);
}

#[test]
fn displace_part_moves_nothing_for_a_bucket_that_fits() {
    let (hashes, mut sorted) = sorted_part(vec![vec![1, 2], vec![3], vec![1]]);
    let ph = ptr_hash(0, 7, 3, 1);
    let mut pilots = vec![0u8; 3];
    let mut taken = Taken::new(7);
    assert_eq!(ph.displace_part(&hashes, &sorted, &mut pilots, &mut taken), Some(0));
    // Bucket 2 has slot 1 under pilot 0, which is in use, and slot 6 under pilot 1.
    assert_eq!(pilots, vec![0, 0, 1]);
    assert_eq!(used(&taken), vec![1, 2, 3, 6]);
    sorted.order.pop();
    let mut fewer = vec![0u8; 3];
    let mut taken = Taken::new(7);
    assert_eq!(ph.displace_part(&hashes, &sorted, &mut fewer, &mut taken), Some(0));
    assert_eq!(fewer[..2], pilots[..2]);
}

#[test]
fn displace_part_evicts_with_the_least_damage() {
    let mut checked = 0;
    for seed in 0..30u64 {
        let (hashes, sorted) = part(100, 30, 1000 * seed);
        let ph = ptr_hash(seed, 101, 30, 1);
        let run = |k: usize| {
            let prefix =
                SortedBuckets { starts: sorted.starts.clone(), order: sorted.order[..k].to_vec() };
            let mut pilots = vec![0u8; 30];
            let mut taken = Taken::new(101);
            let total = ph.displace_part(&hashes, &prefix, &mut pilots, &mut taken);
            (total, pilots)
        };
        let slots_of = |b: usize, p: u64| -> Vec<usize> {
            let hp = ph.hasher.hash_pilot(p);
            hashes[sorted.starts[b] as usize..sorted.starts[b + 1] as usize]
                .iter()
                .map(|&hx| ph.hasher.slot_in_part_hp(hx, hp))
                .collect()
        };
        // The first bucket that evicts exactly one other bucket.
        let Some(k) = (1..30).find(|&k| run(k).0 == Some(0) && run(k + 1).0 == Some(1)) else {
            continue;
        };
        let before = run(k).1;
        let after = run(k + 1).1;
        let mut owner = vec![None; 101];
        for b in sorted.order[..k].iter().map(|b| b.0 as usize) {
            for x in slots_of(b, before[b] as u64) {
                owner[x] = Some(b);
            }
        }
        let damage = |p: u64| -> Option<usize> {
            let v = slots_of(sorted.order[k].0 as usize, p);
            if has_duplicates(&mut v.clone()) {
                return None;
            }
            let len = |b: usize| (sorted.starts[b + 1] - sorted.starts[b]) as usize;
            Some(v.iter().filter_map(|&x| owner[x]).map(|b| len(b) * len(b)).sum())
        };
        let least = (0..256).filter_map(damage).min();
        let new_b = sorted.order[k].0 as usize;
        assert_eq!(damage(after[new_b] as u64), least);
        checked += 1;
    }
    assert!(checked > 3);
}

#[test]
fn displace_part_with_slots_in_use_and_any_order() {
    for seed in 0..40u64 {
        let (hashes, mut sorted) = part(60, 25, 500 * seed);
        sorted.order.sort_by_key(|b| mix(b.0 as u64 + 31 * seed));
        let ph = ptr_hash(seed, 64, 25, 1);
        let mut pilots = vec![0u8; 25];
        let mut expected_pilots = pilots.clone();
        let mut taken = Taken::new(66);
        let mut expected_taken = vec![false; 66];
        for i in 0..6 {
            let x = (mix(77 * seed + i) % 66) as usize;
            taken.set(x, true);
            expected_taken[x] = true;
        }
        let total = ph.displace_part(&hashes, &sorted, &mut pilots, &mut taken);
        let expected = model(&ph, &hashes, &sorted, &mut expected_pilots, &mut expected_taken);
        assert_eq!(total, expected);
        assert_eq!(pilots, expected_pilots);
        assert_eq!(bits(&taken), expected_taken);
    }
}

#[test]
fn sorted_buckets_are_checked() {
    let good = |starts: Vec<u32>, order: Vec<u32>, n: usize| {
        SortedBuckets { starts, order: order.into_iter().map(BucketIdx).collect() }.is_valid(n)
    };
    assert!(good(vec![0, 2, 2, 5], vec![2, 0, 1], 5));
    assert!(good(vec![0, 2, 2, 5], vec![2], 6));
    assert!(!good(vec![0, 2, 2, 5], vec![2, 0, 1], 4));
    assert!(!good(vec![0, 3, 2, 5], vec![2, 0, 1], 5));
    assert!(!good(vec![0, 2, 2, 5], vec![2, 0, 2], 5));
    assert!(!good(vec![0, 2, 2, 5], vec![3], 5));
    assert!(!good(vec![0, 2, 2, 5], vec![u32::MAX], 5));
    assert!(!good(vec![0, 2, 2, 5], vec![], 5));
    assert!(!good(vec![], vec![0], 5));
}

#[test]
fn buckets_are_read_off_the_starts() {
    let sorted = SortedBuckets { starts: vec![0, 2, 2, 5], order: vec![BucketIdx(2)] };
    let hashes = [10u64, 11, 12, 13, 14];
    assert_eq!(sorted.bucket_len(BucketIdx(2)), 3);
    assert_eq!(sorted.bucket_len(BucketIdx(1)), 0);
    assert_eq!(sorted.bucket_of(&hashes, BucketIdx(2)), &[12, 13, 14]);
    assert_eq!(sorted.bucket_of(&hashes, BucketIdx(0)), &[10, 11]);
}

#[test]
fn stats_list_every_bucket_in_order() {
    let sorted =
        SortedBuckets { starts: vec![0, 2, 2, 5], order: vec![BucketIdx(2), BucketIdx(0)] };
    assert_eq!(
        sorted.stats(5, &[7, 8, 9]),
        vec![
            BucketStat { rank: 0, buckets: 2, len: 3, pilot: 9 },
            BucketStat { rank: 1, buckets: 2, len: 2, pilot: 7 },
        ]
    );
}

/// Parts one after the other, with the start of each.
fn shard(parts: &[(u64, u64)], b: usize) -> (Vec<u64>, Vec<u32>, Vec<SortedBuckets>) {
    let mut hashes = vec![];
    let mut part_starts = vec![0u32];
    let mut sorted = vec![];
    for &(n, first_key) in parts {
        let (h, s) = part(n, b, first_key);
        hashes.extend(h);
        part_starts.push(hashes.len() as u32);
        sorted.push(s);
    }
    (hashes, part_starts, sorted)
}

#[test]
fn displace_shard_places_every_part() {
    let (hashes, part_starts, sorted) = shard(&[(50, 18_000), (48, 3), (45, 700)], 20);
    let ph = ptr_hash(18, 50, 20, 3);
    let mut pilots = vec![0u8; 60];
    let mut taken = vec![Taken::new(50), Taken::new(50), Taken::new(50)];
    let totals = ph.displace_shard(&hashes, &part_starts, &sorted, &mut pilots, &mut taken);

    let mut displacements = 0;
    let mut expected = vec![0u8; 60];
    for i in 0..3 {
        let part = &hashes[part_starts[i] as usize..part_starts[i + 1] as usize];
        let mut bitmap = vec![false; 50];
        let chunk = &mut expected[20 * i..20 * i + 20];
        displacements += model(&ph, part, &sorted[i], chunk, &mut bitmap).unwrap();
        assert_eq!(bits(&taken[i]), bitmap);
        let mut slots = key_slots(&ph, part, &sorted[i], chunk);
        assert!(!has_duplicates(&mut slots));
    }
    assert!(displacements >= 13);
    assert_eq!(pilots, expected);
    let sum = expected.iter().map(|&p| p as u128).sum();
    assert_eq!(totals, Some(ShardTotals { displacements, pilots: sum }));
}

#[test]
fn displace_shard_stops_at_a_part_that_fails() {
    // The second part has more keys than slots.
    let (hashes, part_starts, sorted) = shard(&[(45, 1), (55, 3), (45, 700)], 20);
    let ph = ptr_hash(18, 50, 20, 3);
    let mut pilots = vec![5u8; 60];
    let mut taken = vec![Taken::new(50), Taken::new(50), Taken::new(50)];
    let totals = ph.displace_shard(&hashes, &part_starts, &sorted, &mut pilots, &mut taken);
    assert_eq!(totals, None);
    assert_eq!(used(&taken[0]).len(), 45);
    assert_eq!(used(&taken[2]).len(), 0);
    assert_eq!(pilots[40..], [5u8; 20]);
}

#[test]
fn displace_shard_part_reads_its_own_hashes() {
    let (hashes, part_starts, sorted) = shard(&[(45, 1), (50, 18_000)], 20);
    let ph = ptr_hash(18, 50, 20, 2);
    let mut pilots = vec![0u8; 20];
    let mut taken = Taken::new(50);
    let total =
        ph.displace_shard_part(1, &hashes, &part_starts, &sorted[1], &mut pilots, &mut taken);
    assert_eq!(total, Ok(13));
    assert_eq!(sum_pilots(&pilots), 1209);
}

#[test]
fn displace_shard_gives_what_the_parts_give_in_any_order() {
    let (hashes, part_starts, sorted) = shard(&[(50, 18_000), (48, 3), (45, 700)], 20);
    let ph = ptr_hash(18, 50, 20, 3);
    let mut pilots = vec![0u8; 60];
    let mut taken = vec![Taken::new(50), Taken::new(50), Taken::new(50)];
    assert!(ph
        .displace_shard(&hashes, &part_starts, &sorted, &mut pilots, &mut taken)
        .is_some());
    for order in [[0, 1, 2], [2, 0, 1], [1, 2, 0], [2, 1, 0]] {
        let mut other_pilots = vec![0u8; 60];
        let mut other_taken = vec![Taken::new(50), Taken::new(50), Taken::new(50)];
        for i in order {
            let part = &hashes[part_starts[i] as usize..part_starts[i + 1] as usize];
            let chunk = &mut other_pilots[20 * i..20 * i + 20];
            assert!(ph.displace_part(part, &sorted[i], chunk, &mut other_taken[i]).is_some());
        }
        assert_eq!(pilots, other_pilots);
        for i in 0..3 {
            assert_eq!(bits(&taken[i]), bits(&other_taken[i]));
        }
    }
}

#[test]
fn displace_shard_fails_with_another_number_of_parts() {
    // There is room for two parts where a shard has three, and the second fails.
    let (hashes, part_starts, sorted) = shard(&[(45, 1), (55, 3)], 20);
    let ph = ptr_hash(18, 50, 20, 3);
    let mut pilots = vec![0u8; 47];
    let mut taken = vec![Taken::new(50), Taken::new(50), Taken::new(50)];
    let totals = ph.displace_shard(&hashes, &part_starts, &sorted, &mut pilots, &mut taken);
    assert_eq!(totals, None);
    assert_eq!(used(&taken[0]).len(), 45);
    assert_eq!(used(&taken[2]).len(), 0);
}

#[test]
fn try_displace_part_says_why_it_failed() {
    let (hashes, sorted) = part(10, 10, 0);
    let ph = ptr_hash(0, 9, 10, 1);
    let mut taken = Taken::new(9);
    assert_eq!(
        ph.try_displace_part(&hashes, &sorted, &mut [0u8; 10], &mut taken),
        Err(Failure::TooManyDisplacements)
    );
    let (hashes, sorted) = sorted_part(vec![vec![3], vec![77, 5, 77]]);
    let ph = ptr_hash(1, 100, 2, 1);
    let mut taken = Taken::new(100);
    assert_eq!(
        ph.try_displace_part(&hashes, &sorted, &mut [0u8; 2], &mut taken),
        Err(Failure::Indistinguishable(BucketIdx(1)))
    );
    let (hashes, sorted) = part(50, 20, 18_000);
    let ph = ptr_hash(18, 50, 20, 1);
    let mut taken = Taken::new(50);
    assert_eq!(
        ph.try_displace_part(&hashes, &sorted, &mut [0u8; 20], &mut taken),
        Ok(13)
    );
}

#[test]
fn ptr_hash_is_checked() {
    assert!(ptr_hash(0, 7, 1, 1).is_valid());
    assert!(!ptr_hash(0, 0, 1, 1).is_valid());
    let hasher = RemHasher { seed: 0, s: 8 };
    assert!(!PtrHash { s: 7, b: 1, parts_per_shard: 1, hasher }.is_valid());
    assert_eq!(hasher.slots(), Some(8));
}

#[test]
fn find_pilot_ignores_the_order_of_the_keys() {
    for len in 1..14u64 {
        let ph = ptr_hash(len, 60, 1, 1);
        let bucket: Vec<u64> = (0..len).map(mix).collect();
        let mut other = bucket.clone();
        other.sort();
        let mut a = Taken::new(60);
        let mut b = Taken::new(60);
        for x in [3, 20, 41] {
            a.set(x, true);
            b.set(x, true);
        }
        assert_eq!(
            ph.find_pilot_slice(256, &bucket, &mut a),
            ph.find_pilot_slice(256, &other, &mut b)
        );
        assert_eq!(bits(&a), bits(&b));
    }
}

#[test]
fn find_pilot_again_finds_a_larger_pilot() {
    let ph = ptr_hash(5, 40, 1, 1);
    let bucket: Vec<u64> = (0..3).map(mix).collect();
    let mut taken = Taken::new(40);
    let mut last = None;
    let mut times = 0;
    while let Some((p, _)) = ph.find_pilot(256, &bucket, &mut taken) {
        assert!(last < Some(p));
        last = Some(p);
        times += 1;
    }
    assert!(times > 3);
}

#[test]
fn find_pilot_with_another_limit() {
    let ph = ptr_hash(0, 7, 1, 1);
    for limit in 0..6 {
        let mut taken = Taken::new(7);
        taken.set(2, true);
        let found = ph.find_pilot(limit, &[1, 2, 3], &mut taken);
        if limit > 2 {
            assert_eq!(found, Some((2, 11743562013128004906)));
            assert_eq!(used(&taken), vec![1, 2, 5, 6]);
        } else {
            assert_eq!(found, None);
            assert_eq!(used(&taken), vec![2]);
        }
    }
}

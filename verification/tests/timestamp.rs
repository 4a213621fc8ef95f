use qwen3_asr::double::{interpolate, store};
use qwen3_asr::timestamp::fix_timestamp;

/// The repair written with binary64 arithmetic.
fn repair_with_floats(data: &[i64]) -> Vec<i64> {
    let n = data.len();
    if n == 0 {
        return Vec::new();
    }
    let mut dp = vec![1usize; n];
    let mut parent = vec![-1isize; n];
    for i in 1..n {
        for j in 0..i {
            if data[j] <= data[i] && dp[j] + 1 > dp[i] {
                dp[i] = dp[j] + 1;
                parent[i] = j as isize;
            }
        }
    }
    let max = *dp.iter().max().unwrap();
    let mut at = dp.iter().position(|&x| x == max).unwrap() as isize;
    let mut normal = vec![false; n];
    while at != -1 {
        normal[at as usize] = true;
        at = parent[at as usize];
    }
    let mut result: Vec<f64> = data.iter().map(|&x| x as f64).collect();
    let mut i = 0;
    while i < n {
        if normal[i] {
            i += 1;
            continue;
        }
        let mut j = i;
        while j < n && !normal[j] {
            j += 1;
        }
        let count = j - i;
        let left = if i > 0 { Some(result[i - 1]) } else { None };
        let right = if j < n { Some(result[j]) } else { None };
        for k in i..j {
            result[k] = match (left, right) {
                (None, Some(r)) => r,
                (Some(l), None) => l,
                (Some(l), Some(r)) if count <= 2 => {
                    if (k as isize - (i as isize - 1)) <= (j as isize - k as isize) {
                        l
                    } else {
                        r
                    }
                }
                (Some(l), Some(r)) => {
                    let step = (r - l) / (count as f64 + 1.0);
                    l + step * ((k - i + 1) as f64)
                }
                (None, None) => result[k],
            };
        }
        i = j;
    }
    result.into_iter().map(|x| x as i64).collect()
}

struct Lcg(u64);

impl Lcg {
    fn next(&mut self) -> u64 {
        self.0 = self.0.wrapping_mul(6364136223846793005).wrapping_add(1442695040888963407);
        self.0 >> 11
    }
}

#[test]
fn fix_timestamp_monotonic() {
    let data = vec![0, 80, 160, 240];
    assert_eq!(fix_timestamp(&data), data);
}

#[test]
fn fix_timestamp_repairs_glitch() {
    let data = vec![0, 80, 1000, 240, 320];
    let fixed = fix_timestamp(&data);
    // 1000 breaks LIS; should be repaired toward neighbors
    assert!(fixed.windows(2).all(|w| w[0] <= w[1]));
}

#[test]
fn fix_timestamp_empty() {
    assert_eq!(fix_timestamp(&[]), Vec::<i64>::new());
}

#[test]
fn fix_timestamp_short_run_takes_nearer_neighbour() {
    assert_eq!(fix_timestamp(&[0, 80, 1000, 240, 320]), vec![0, 80, 80, 240, 320]);
    assert_eq!(
        fix_timestamp(&[0, 80, 1000, 900, 240, 320, 400]),
        vec![0, 80, 80, 240, 240, 320, 400]
    );
}

#[test]
fn fix_timestamp_run_at_either_end() {
    assert_eq!(fix_timestamp(&[900, 800, 0, 80, 160]), vec![0, 0, 0, 80, 160]);
    assert_eq!(fix_timestamp(&[100, 200, 300, 50, 40, 30]), vec![100, 200, 300, 300, 300, 300]);
}

#[test]
fn fix_timestamp_spaces_long_run() {
    let data = vec![0, 10, 20, 900, 800, 700, 60, 70, 80, 90];
    assert_eq!(fix_timestamp(&data), vec![0, 10, 20, 30, 40, 50, 60, 70, 80, 90]);
}

#[test]
fn fix_timestamp_first_of_equal_chains() {
    // Both 5 and 3 extend to length two; the first link and the first peak win.
    assert_eq!(fix_timestamp(&[5, 3, 7]), vec![5, 5, 7]);
    assert_eq!(fix_timestamp(&[2, 1]), vec![2, 2]);
}

#[test]
fn fix_timestamp_agrees_with_floats() {
    let mut rng = Lcg(7);
    for round in 0..400u64 {
        let n = 1 + (rng.next() % 40) as usize;
        let span = 1 + rng.next() % (1 << (1 + round % 52));
        let data: Vec<i64> =
            (0..n).map(|_| (rng.next() % span) as i64 - (span / 3) as i64).collect();
        assert_eq!(fix_timestamp(&data), repair_with_floats(&data));
    }
}

#[test]
fn fix_timestamp_agrees_with_floats_on_extremes() {
    let big = vec![
        i64::MIN, 3, i64::MAX, i64::MIN + 1, i64::MAX - 1, i64::MAX, 0, -1, i64::MAX, i64::MAX,
    ];
    assert_eq!(fix_timestamp(&big), repair_with_floats(&big));
}

#[test]
fn store_rounds_beyond_53_bits() {
    assert_eq!(store(9007199254740993), 9007199254740992);
    assert_eq!(store(9007199254740995), 9007199254740996);
    assert_eq!(store(-9007199254740993), -9007199254740992);
    assert_eq!(store(i64::MAX), i64::MAX);
    assert_eq!(store(i64::MIN), i64::MIN);
    assert_eq!(store(-17), -17);
}

#[test]
fn interpolate_agrees_with_floats() {
    let mut rng = Lcg(99);
    for round in 0..20000u64 {
        let bits = 1 + round % 53;
        let a = (rng.next() % (1 << bits)) as i64 - (rng.next() % (1 << bits)) as i64;
        let b = a + (rng.next() % (1 << (1 + round % 50))) as i64;
        let count = 1 + (rng.next() % 400) as usize;
        let k = 1 + (rng.next() % count as u64) as usize;
        let (l, r) = (a as f64, b as f64);
        let step = (r - l) / (count as f64 + 1.0);
        let expected = (l + step * k as f64) as i64;
        assert_eq!(interpolate(a, b, count, k), expected, "{a} {b} {count} {k}");
    }
}

#[test]
fn interpolate_keeps_the_rounding_of_the_step() {
    // One forty-ninth times forty-nine falls just short of one in binary64.
    assert_eq!(interpolate(0, 2, 97, 49), 0);
    assert_eq!(interpolate(0, 160, 97, 49), ((160.0f64 / 98.0) * 49.0) as i64);
}

/// The length of a longest non-decreasing subsequence, by trying all.
fn longest(data: &[i64]) -> usize {
    let mut best = 0;
    for mask in 0..1usize << data.len() {
        let picked: Vec<i64> =
            (0..data.len()).filter(|i| mask >> i & 1 == 1).map(|i| data[i]).collect();
        if picked.windows(2).all(|w| w[0] <= w[1]) {
            best = best.max(picked.len());
        }
    }
    best
}

#[test]
fn repair_keeps_a_longest_subsequence() {
    for seed in 0..200i64 {
        let data: Vec<i64> = (0..8).map(|i| (seed * 37 + i * 53 + i * i * seed * 11) % 23).collect();
        let fixed = fix_timestamp(&data);
        let same = data.iter().zip(&fixed).filter(|(a, b)| a == b).count();
        assert!(same >= longest(&data), "{:?}", data);
        assert!(fixed.windows(2).all(|w| w[0] <= w[1]), "{:?}", data);
    }
}

#[test]
fn repairing_twice_changes_nothing() {
    let big = i64::MAX;
    let mut lists: Vec<Vec<i64>> = vec![
        vec![0, 80, 1000, 240, 320],
        vec![big, big - 1, 0, i64::MIN, 5],
        vec![0, 9, 8, 7, 6, big - 3, big],
        vec![i64::MIN + 1, 3, 2, 1, 0, (1 << 53) + 1],
    ];
    for seed in 0..100i64 {
        lists.push((0..9).map(|i| (seed * 91 + i * 57 + i * i * seed * 13) % 1009).collect());
    }
    for data in lists {
        let once = fix_timestamp(&data);
        assert_eq!(fix_timestamp(&once), once, "{:?}", data);
        if data.iter().all(|&x| x >= 0) {
            assert!(once.iter().all(|&x| x >= 0), "{:?}", data);
        }
    }
}

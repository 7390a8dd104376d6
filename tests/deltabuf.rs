use cantal::deltabuf::Delta::{Negative, Positive, Skip};
use cantal::deltabuf::{Delta, DeltaBuf};

fn to_buf(values: &[u64]) -> DeltaBuf {
    let mut buf = DeltaBuf::new();
    for idx in 0..(values.len() - 1) {
        buf.push(values[idx], values[idx + 1], 1);
    }
    buf
}

fn to_buf_opt(values: &[Option<u64>]) -> DeltaBuf {
    let mut buf = DeltaBuf::new();
    let mut off = 0;
    let mut old = values[0].unwrap();
    for idx in 0..(values.len() - 1) {
        off += 1;
        if let Some(v) = values[idx + 1] {
            buf.push(old, v, off);
            old = v;
            off = 0;
        }
    }
    buf
}

fn deltify(values: &[u64]) -> Vec<Delta> {
    to_buf(values).deltas(100)
}

fn deltify_opt(values: &[Option<u64>]) -> Vec<Delta> {
    to_buf_opt(values).deltas(100)
}

fn sample_opt() -> DeltaBuf {
    to_buf_opt(&[
        Some(1u64),
        Some(2),
        None,
        Some(10),
        Some(1000),
        None,
        None,
        None,
        None,
        Some(100000),
        Some(5),
        Some(10),
    ])
}

fn sample_result() -> Vec<Delta> {
    vec![
        Positive(5),
        Negative(99995),
        Positive(99000),
        Skip,
        Skip,
        Skip,
        Skip,
        Positive(990),
        Positive(8),
        Skip,
        Positive(1),
    ]
}

#[test]
fn u64_no_skips() {
    assert_eq!(
        deltify(&[1u64, 2, 10, 1000, 100000, 5, 5, 5, 5, 10]),
        vec![
            Positive(5),
            Positive(0),
            Positive(0),
            Positive(0),
            Negative(99995),
            Positive(99000),
            Positive(990),
            Positive(8),
            Positive(1)
        ]
    );
}

#[test]
fn u64_skips() {
    assert_eq!(
        deltify_opt(&[
            Some(1u64),
            Some(2),
            None,
            Some(10),
            Some(1000),
            None,
            None,
            None,
            None,
            Some(100000),
            Some(5),
            Some(10)
        ]),
        vec![
            Positive(5),
            Negative(99995),
            Positive(99000),
            Skip,
            Skip,
            Skip,
            Skip,
            Positive(990),
            Positive(8),
            Skip,
            Positive(1)
        ]
    );
}

#[test]
fn u64_partial_read() {
    let buf = sample_opt();
    let result = sample_result();
    for i in 0..result.len() {
        assert_eq!(&buf.deltas(i)[..], &result[..i]);
    }
}

#[test]
fn u64_truncate() {
    let buf = sample_opt();
    let result = sample_result();
    for i in 0..result.len() {
        let mut b = buf.clone();
        assert_eq!(b.truncate(i), i);
        assert_eq!(&b.deltas(100)[..], &result[..i]);
    }
    let mut b = buf.clone();
    assert_eq!(b.deltas(100).len(), 11);
    assert_eq!(b.truncate(100), 11);
    assert_eq!(b.deltas(100), result);
}

#[test]
fn truncate_to_five_keeps_newest_five() {
    let mut b = sample_opt();
    assert_eq!(b.truncate(5), 5);
    assert_eq!(b.deltas(100), sample_result()[..5].to_vec());
}

#[test]
fn truncate_inside_a_run_rewrites_its_count() {
    let mut b = DeltaBuf::new();
    for _ in 0..10 {
        b.push(7, 7, 1);
    }
    b.push(7, 9, 1);
    assert_eq!(b.byte_len(), 2);
    assert_eq!(b.truncate(4), 4);
    assert_eq!(b.byte_len(), 2);
    assert_eq!(b.deltas(100), vec![Positive(2), Positive(0), Positive(0), Positive(0)]);
}

#[test]
fn truncate_to_zero_empties() {
    let mut b = sample_opt();
    assert_eq!(b.truncate(0), 0);
    assert_eq!(b.byte_len(), 0);
    assert_eq!(b.deltas(100), Vec::<Delta>::new());
}

#[test]
fn partial_read_beyond_length_gives_all() {
    let buf = sample_opt();
    assert_eq!(buf.deltas(1000), sample_result());
    assert_eq!(buf.deltas(0), Vec::<Delta>::new());
}

#[test]
fn round_trip_of_consecutive_samples() {
    let vals = [3u64, 3, 70000, 1, u64::MAX, 0, 31, 32, 33];
    let buf = to_buf(&vals);
    let mut expected = Vec::new();
    for i in (0..vals.len() - 1).rev() {
        if vals[i] > vals[i + 1] {
            expected.push(Negative(vals[i] - vals[i + 1]));
        } else {
            expected.push(Positive(vals[i + 1] - vals[i]));
        }
    }
    assert_eq!(buf.deltas(usize::MAX), expected);
}

#[test]
fn largest_delta_round_trips() {
    let mut b = DeltaBuf::new();
    b.push(0, u64::MAX, 1);
    b.push(u64::MAX, 0, 1);
    assert_eq!(b.deltas(10), vec![Negative(u64::MAX), Positive(u64::MAX)]);
}

#[test]
fn small_delta_takes_one_byte() {
    let mut b = DeltaBuf::new();
    b.push(10, 41, 1);
    assert_eq!(b.byte_len(), 1);
    b.push(41, 10, 1);
    assert_eq!(b.byte_len(), 2);
    b.push(10, 42, 1);
    assert_eq!(b.byte_len(), 4);
    assert_eq!(b.deltas(10), vec![Positive(32), Negative(31), Positive(31)]);
}

#[test]
fn skip_encoding_puts_gaps_behind_the_delta() {
    let mut b = DeltaBuf::new();
    b.push(1, 2, 4);
    assert_eq!(b.deltas(10), vec![Positive(1), Skip, Skip, Skip]);
    let mut c = DeltaBuf::new();
    c.push(5, 5, 40);
    let mut expected = vec![Positive(0)];
    expected.extend(std::iter::repeat(Skip).take(39));
    assert_eq!(c.deltas(100), expected);
    assert_eq!(c.byte_len(), 3);
}

#[test]
fn same_tick_push_is_ignored() {
    let mut b = sample_opt();
    b.push(1, 100, 0);
    assert_eq!(b.deltas(100), sample_result());
}

#[test]
fn zero_runs_take_one_byte_per_thirty_one() {
    for n in [1usize, 30, 31, 32, 62, 63, 100] {
        let mut b = DeltaBuf::new();
        for _ in 0..n {
            b.push(9, 9, 1);
        }
        assert_eq!(b.byte_len(), (n + 30) / 31);
        assert_eq!(b.deltas(1000), vec![Positive(0); n]);
    }
}

#[test]
fn zero_after_continuation_front_byte_is_a_new_run() {
    let mut b = DeltaBuf::new();
    b.push(0, 2048, 1);
    b.push(2048, 2048, 1);
    assert_eq!(b.deltas(10), vec![Positive(0), Positive(2048)]);
}

#[test]
fn truncate_beyond_length_keeps_the_bytes() {
    let mut b = sample_opt();
    let before = b.byte_len();
    assert_eq!(b.truncate(12), 11);
    assert_eq!(b.byte_len(), before);
    assert_eq!(b.deltas(100), sample_result());
}

#[test]
fn zero_runs_in_front_of_a_nonempty_log() {
    let mut b = DeltaBuf::new();
    b.push(1, 5, 1);
    for _ in 0..40 {
        b.push(5, 5, 1);
    }
    assert_eq!(b.byte_len(), 1 + 2);
    let mut expected = vec![Positive(0); 40];
    expected.push(Positive(4));
    assert_eq!(b.deltas(100), expected);
}

//! End-to-end training scenario: the floating-point network of the caller,
//! driven through the library's verified vocabulary, encoding, split, batch
//! schedule and accuracy accounting.

use fruit_net::eval::count_correct;
use fruit_net::labels::{build_vocabulary, encode_labels};
use fruit_net::normalize::{Normalizer, SCALE};
use fruit_net::schedule::batch_bounds;
use fruit_net::split::split_dataset;

struct Lcg(u64);

impl Lcg {
    fn next_unit(&mut self) -> f64 {
        self.0 = self
            .0
            .wrapping_mul(6364136223846793005)
            .wrapping_add(1442695040888963407);
        ((self.0 >> 33) as f64) / ((1u64 << 31) as f64)
    }

    fn next_symmetric(&mut self) -> f64 {
        2.0 * self.next_unit() - 1.0
    }
}

type Mat = Vec<Vec<f64>>;

fn zeros(r: usize, c: usize) -> Mat {
    vec![vec![0.0; c]; r]
}

fn matmul(a: &Mat, b: &Mat) -> Mat {
    let mut out = zeros(a.len(), b[0].len());
    for i in 0..a.len() {
        for k in 0..b.len() {
            let aik = a[i][k];
            for j in 0..b[0].len() {
                out[i][j] += aik * b[k][j];
            }
        }
    }
    out
}

fn transpose(a: &Mat) -> Mat {
    let mut out = zeros(a[0].len(), a.len());
    for i in 0..a.len() {
        for j in 0..a[0].len() {
            out[j][i] = a[i][j];
        }
    }
    out
}

struct Net {
    w1: Mat,
    b1: Vec<f64>,
    w2: Mat,
    b2: Vec<f64>,
    lr: f64,
}

impl Net {
    fn new(input: usize, hidden: usize, output: usize, lr: f64, rng: &mut Lcg) -> Net {
        let s1 = (2.0 / (input + hidden) as f64).sqrt();
        let s2 = (1.0 / (hidden + output) as f64).sqrt();
        let w1 = (0..input)
            .map(|_| (0..hidden).map(|_| rng.next_symmetric() * s1).collect())
            .collect();
        let w2 = (0..hidden)
            .map(|_| (0..output).map(|_| rng.next_symmetric() * s2).collect())
            .collect();
        Net { w1, b1: vec![0.0; hidden], w2, b2: vec![0.0; output], lr }
    }

    fn forward(&self, x: &Mat) -> (Mat, Mat, Mat) {
        let mut hidden_pre = matmul(x, &self.w1);
        for row in hidden_pre.iter_mut() {
            for (j, v) in row.iter_mut().enumerate() {
                *v += self.b1[j];
            }
        }
        let hidden_act: Mat = hidden_pre
            .iter()
            .map(|row| row.iter().map(|&v| if v > 0.0 { v } else { 0.0 }).collect())
            .collect();
        let mut out_pre = matmul(&hidden_act, &self.w2);
        for row in out_pre.iter_mut() {
            for (j, v) in row.iter_mut().enumerate() {
                *v += self.b2[j];
            }
        }
        let output: Mat = out_pre
            .iter()
            .map(|row| {
                let max = row.iter().cloned().fold(f64::NEG_INFINITY, f64::max);
                let exps: Vec<f64> = row.iter().map(|&v| (v - max).exp()).collect();
                let sum: f64 = exps.iter().sum();
                exps.iter().map(|&e| e / sum).collect()
            })
            .collect();
        (hidden_pre, hidden_act, output)
    }

    /// One epoch of mini-batch gradient descent over the verified batch
    /// schedule; returns how many gradient updates were applied.
    fn train_one_epoch(&mut self, x: &Mat, y: &Mat, batch_size: usize) -> usize {
        let l2_lambda = 0.001;
        let mut updates = 0;
        for (start, end) in batch_bounds(x.len(), batch_size) {
            let xb: Mat = x[start..end].to_vec();
            let yb: Mat = y[start..end].to_vec();
            let bs = (end - start) as f64;
            let (hidden_pre, hidden_act, output) = self.forward(&xb);
            let out_err: Mat = output
                .iter()
                .zip(yb.iter())
                .map(|(o, t)| o.iter().zip(t.iter()).map(|(a, b)| a - b).collect())
                .collect();
            let w2t = transpose(&self.w2);
            let mut hid_err = matmul(&out_err, &w2t);
            for (row, pre) in hid_err.iter_mut().zip(hidden_pre.iter()) {
                for (v, &p) in row.iter_mut().zip(pre.iter()) {
                    if p <= 0.0 {
                        *v = 0.0;
                    }
                }
            }
            let grad_w2 = matmul(&transpose(&hidden_act), &out_err);
            let grad_w1 = matmul(&transpose(&xb), &hid_err);
            for i in 0..self.w2.len() {
                for j in 0..self.w2[0].len() {
                    let g = grad_w2[i][j] / bs + l2_lambda * self.w2[i][j];
                    self.w2[i][j] -= self.lr * g;
                }
            }
            for j in 0..self.b2.len() {
                let g: f64 = out_err.iter().map(|r| r[j]).sum::<f64>() / bs;
                self.b2[j] -= self.lr * g;
            }
            for i in 0..self.w1.len() {
                for j in 0..self.w1[0].len() {
                    let g = grad_w1[i][j] / bs + l2_lambda * self.w1[i][j];
                    self.w1[i][j] -= self.lr * g;
                }
            }
            for j in 0..self.b1.len() {
                let g: f64 = hid_err.iter().map(|r| r[j]).sum::<f64>() / bs;
                self.b1[j] -= self.lr * g;
            }
            updates += 1;
        }
        updates
    }

    /// Accuracy through the library's argmax accounting, as (correct, total).
    fn evaluate(&self, x: &Mat, targets: &Vec<Vec<i64>>) -> (usize, usize) {
        let (_, _, output) = self.forward(x);
        let scaled: Vec<Vec<i64>> = output
            .iter()
            .map(|row| row.iter().map(|&p| (p * SCALE as f64) as i64).collect())
            .collect();
        (count_correct(&scaled, targets), x.len())
    }
}

fn to_f64(rows: &Vec<Vec<i64>>) -> Mat {
    rows.iter()
        .map(|r| r.iter().map(|&v| v as f64 / SCALE as f64).collect())
        .collect()
}

#[test]
fn two_separated_classes_converge() {
    let mut rng = Lcg(42);
    // 40 samples clustered near [50, 2, 2, 2] and 40 near [500, 10, 10, 10],
    // interleaved so both classes land in both partitions of the 8/10 split.
    let mut features: Vec<Vec<u64>> = Vec::new();
    let mut labels: Vec<String> = Vec::new();
    for i in 0..80 {
        let (base, label) = if i % 2 == 0 {
            ([50.0, 2.0, 2.0, 2.0], "apple")
        } else {
            ([500.0, 10.0, 10.0, 10.0], "watermelon")
        };
        let row: Vec<u64> = base
            .iter()
            .map(|&b| {
                let jittered = b * (0.9 + 0.2 * rng.next_unit());
                (jittered * SCALE as f64).round() as u64
            })
            .collect();
        features.push(row);
        labels.push(label.to_string());
    }

    let vocab = build_vocabulary(&labels);
    assert_eq!(vocab.len(), 2);
    let targets = encode_labels(&labels, &vocab);

    let split = split_dataset(features, targets, 8, 10).unwrap();
    assert_eq!(split.train_x.len(), 64);
    assert_eq!(split.test_x.len(), 16);

    // Standardize against the training partition only.
    let mut norm = Normalizer::new();
    norm.fit(&split.train_x).unwrap();
    let train_f = to_f64(&norm.transform(&split.train_x));
    let test_f = to_f64(&norm.transform(&split.test_x));

    let train_y_f: Mat = split
        .train_y
        .iter()
        .map(|r| r.iter().map(|&v| v as f64).collect())
        .collect();

    let mut net = Net::new(4, 8, 2, 0.05, &mut rng);
    let batch_size = 16;
    for _ in 0..500 {
        let updates = net.train_one_epoch(&train_f, &train_y_f, batch_size);
        // The dropped-trailing-batch policy: 64 / 16 = 4 updates per epoch.
        assert_eq!(updates, 4);
    }

    let (correct, total) = net.evaluate(&train_f, &split.train_y);
    assert!(
        correct as f64 / total as f64 >= 0.95,
        "training accuracy {}/{}",
        correct,
        total
    );
    let (test_correct, test_total) = net.evaluate(&test_f, &split.test_y);
    assert!(
        test_correct as f64 / test_total as f64 >= 0.95,
        "evaluation accuracy {}/{}",
        test_correct,
        test_total
    );
}

use ruzik::plugin::fft::{fft, next_power_of_two, pad_to_power_of_two, Butterfly};

#[derive(Clone, Copy, Debug, PartialEq)]
struct Cx {
    re: f64,
    im: f64,
}

impl Butterfly for Cx {
    const ZERO: Self = Cx { re: 0.0, im: 0.0 };
    fn twiddle(index: usize, n: usize) -> Self {
        let angle = -std::f64::consts::PI * (index as f64) / (n as f64);
        Cx { re: angle.cos(), im: angle.sin() }
    }
    fn times(self, o: Self) -> Self {
        Cx { re: self.re * o.re - self.im * o.im, im: self.re * o.im + self.im * o.re }
    }
    fn plus(self, o: Self) -> Self {
        Cx { re: self.re + o.re, im: self.im + o.im }
    }
    fn minus(self, o: Self) -> Self {
        Cx { re: self.re - o.re, im: self.im - o.im }
    }
}

fn reals(values: &[f64]) -> Vec<Cx> {
    values.iter().map(|&re| Cx { re, im: 0.0 }).collect()
}

fn close(a: &[Cx], b: &[Cx]) -> bool {
    a.len() == b.len()
        && a.iter().zip(b).all(|(x, y)| (x.re - y.re).abs() < 1e-9 && (x.im - y.im).abs() < 1e-9)
}

/// The discrete Fourier transform by its definition.
fn dft(input: &[Cx]) -> Vec<Cx> {
    let n = input.len();
    (0..n)
        .map(|k| {
            let mut acc = Cx::ZERO;
            for (t, x) in input.iter().enumerate() {
                let angle = -2.0 * std::f64::consts::PI * (k * t) as f64 / n as f64;
                acc = acc.plus(x.times(Cx { re: angle.cos(), im: angle.sin() }));
            }
            acc
        })
        .collect()
}

#[test]
fn next_power_of_two_values() {
    assert_eq!(next_power_of_two(0), 1);
    assert_eq!(next_power_of_two(1), 1);
    assert_eq!(next_power_of_two(2), 2);
    assert_eq!(next_power_of_two(3), 4);
    assert_eq!(next_power_of_two(5), 8);
    assert_eq!(next_power_of_two(8), 8);
    assert_eq!(next_power_of_two(8193), 16384);
    for n in 0..2000usize {
        assert_eq!(next_power_of_two(n), n.next_power_of_two());
    }
}

#[test]
fn pad_appends_zeros() {
    assert_eq!(pad_to_power_of_two(&vec![1, 2, 3], 0), vec![1, 2, 3, 0]);
    assert_eq!(pad_to_power_of_two(&vec![5, 6, 7, 8, 9], 0), vec![5, 6, 7, 8, 9, 0, 0, 0]);
    assert_eq!(pad_to_power_of_two(&Vec::<i32>::new(), -1), vec![-1]);
}

#[test]
fn pad_leaves_power_of_two_as_is() {
    let v = vec![4, 3, 2, 1];
    assert_eq!(pad_to_power_of_two(&v, 0), v);
    let once = pad_to_power_of_two(&vec![1, 2, 3, 4, 5, 6], 0);
    assert_eq!(pad_to_power_of_two(&once, 0), once);
}

#[test]
fn fft_of_impulse_is_flat() {
    let out = fft(&reals(&[1.0, 0.0, 0.0, 0.0]));
    assert!(close(&out, &reals(&[1.0, 1.0, 1.0, 1.0])));
}

#[test]
fn fft_of_ramp() {
    let out = fft(&reals(&[1.0, 2.0, 3.0, 4.0]));
    let expected = vec![
        Cx { re: 10.0, im: 0.0 },
        Cx { re: -2.0, im: 2.0 },
        Cx { re: -2.0, im: 0.0 },
        Cx { re: -2.0, im: -2.0 },
    ];
    assert!(close(&out, &expected));
}

#[test]
fn fft_pads_to_power_of_two() {
    let input = reals(&[1.0, -1.0, 0.5]);
    let out = fft(&input);
    assert_eq!(out.len(), 4);
    let mut padded = input.clone();
    padded.push(Cx::ZERO);
    assert!(close(&out, &dft(&padded)));
}

#[test]
fn fft_agrees_with_dft() {
    let input: Vec<Cx> = (0..16)
        .map(|k| Cx { re: ((k * 7) % 5) as f64 - 2.0, im: ((k * 3) % 4) as f64 * 0.5 })
        .collect();
    assert!(close(&fft(&input), &dft(&input)));
}

#[test]
fn fft_of_single_value_is_that_value() {
    let input = vec![Cx { re: 3.5, im: -1.25 }];
    assert_eq!(fft(&input), input);
}

#[test]
fn fft_of_empty_is_one_zero() {
    assert_eq!(fft::<Cx>(&Vec::new()), vec![Cx::ZERO]);
}

#[test]
fn fft_of_padded_input_is_the_same() {
    let input = reals(&[0.5, -1.5, 2.0, 0.25, 1.0]);
    let padded = pad_to_power_of_two(&input, Cx::ZERO);
    assert_eq!(padded.len(), 8);
    assert_eq!(fft(&input), fft(&padded));
}

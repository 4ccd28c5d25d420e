use synfection::infer::Ops;
use synfection::net::{overruns, read_u32, BundleError, Net};

fn entry(name: &[u8], shape: &[u32], data: &[f32]) -> Vec<u8> {
    let mut b = vec![];
    b.extend((name.len() as u16).to_le_bytes());
    b.extend(name);
    b.push(shape.len() as u8);
    for d in shape {
        b.extend(d.to_le_bytes());
    }
    for v in data {
        b.extend(v.to_le_bytes());
    }
    b
}

fn bundle(entries: &[Vec<u8>]) -> Vec<u8> {
    let mut b = b"SYNF".to_vec();
    b.extend(1u32.to_le_bytes());
    b.extend((entries.len() as u32).to_le_bytes());
    for e in entries {
        b.extend(e);
    }
    b
}

#[test]
fn reading_numbers() {
    let mut o = 1;
    assert_eq!(read_u32(&[9, 0x78, 0x56, 0x34, 0x12, 9], &mut o), 0x12345678);
    assert_eq!(o, 5);
}

#[test]
fn reading_a_bundle() {
    let b = bundle(&[
        entry(b"melfb", &[2, 3], &[1.0, 2.0, 3.0, 4.0, 5.0, -6.5]),
        entry("caf\u{e9}".as_bytes(), &[], &[7.0]),
        entry(b"twice", &[1], &[1.0]),
        entry(b"twice", &[1], &[2.0]),
    ]);
    assert!(!overruns(&b));
    let net = Net::load(&b).unwrap();
    let fb = net.mel_fb().unwrap();
    assert_eq!(fb.shape, [2, 3]);
    assert_eq!(f32::from_bits(fb.data[5]), -6.5);
    let t = net.get("caf\u{e9}").unwrap();
    assert_eq!((t.shape.len(), t.data.len()), (0, 1));
    assert_eq!(f32::from_bits(net.get("twice").unwrap().data[0]), 2.0);
    assert_eq!(net.get("fc1w").unwrap_err(), "fc1w");
}

#[test]
fn bundles_that_cannot_be_used() {
    assert!(matches!(Net::load(b"nope"), Err(BundleError::BadMagic)));
    let bad = bundle(&[entry(&[0xff, 0xfe], &[1], &[1.0])]);
    assert!(!overruns(&bad));
    assert!(matches!(Net::load(&bad), Err(BundleError::BadName)));
    assert!(net_without_melfb().mel_fb().is_err());
}

fn net_without_melfb() -> Net {
    Net::load(&bundle(&[])).unwrap()
}

#[test]
fn bundles_that_end_too_soon() {
    let whole = bundle(&[entry(b"melfb", &[2], &[1.0, 2.0])]);
    assert!(!overruns(&whole));
    for n in 0..whole.len() {
        assert!(overruns(&whole[..n]), "{n}");
    }
    // nothing after the entries is looked at
    let mut more = whole.clone();
    more.push(1);
    assert!(!overruns(&more));
    // no machine can count this
    let huge = bundle(&[entry(b"x", &[u32::MAX, u32::MAX, u32::MAX], &[])]);
    assert!(overruns(&huge));
}

// ---- a network of random weights, beside a plain one ----

fn noise(seed: &mut u32) -> f32 {
    *seed = seed.wrapping_mul(1664525).wrapping_add(1013904223);
    (*seed >> 8) as f32 / (1 << 24) as f32 - 0.5
}

type Weights = Vec<(String, Vec<u32>, Vec<f32>)>;

fn weights(seed: u32, outputs: u32) -> Weights {
    let mut s = seed;
    let mut out = vec![];
    let mut add = |name: String, shape: Vec<u32>| {
        let n: u32 = shape.iter().product();
        let data = (0..n).map(|_| noise(&mut s)).collect();
        out.push((name, shape, data));
    };
    let chans = [1, 2, 3, 3, 2, 2, 3, 4, 4];
    for blk in 0..4 {
        for c in 0..2 {
            let (ci, co) = (chans[blk * 2 + c], chans[blk * 2 + c + 1]);
            add(format!("b{blk}c{}w", c + 1), vec![co, ci, 3, 3]);
            add(format!("b{blk}c{}b", c + 1), vec![co]);
        }
    }
    add("fc1w".to_string(), vec![5, 4]);
    add("fc1b".to_string(), vec![5]);
    add("fc2w".to_string(), vec![outputs, 5]);
    add("fc2b".to_string(), vec![outputs]);
    out
}

fn load(w: &Weights) -> Net {
    let entries: Vec<Vec<u8>> = w.iter().map(|(n, s, d)| entry(n.as_bytes(), s, d)).collect();
    Net::load(&bundle(&entries)).unwrap()
}

fn relu(v: f32) -> f32 {
    v.max(0.1 * v)
}

fn squash(v: f32) -> f32 {
    1.0 / (1.0 + (-v).exp())
}

fn plain_conv(x: &[f32], ci: usize, h: usize, w: usize, wt: &[f32], b: &[f32]) -> Vec<f32> {
    let co = b.len();
    let mut out = vec![0.0f32; co * h * w];
    for oc in 0..co {
        for oy in 0..h {
            for ox in 0..w {
                let mut acc = b[oc];
                for ic in 0..ci {
                    for ky in 0..3usize {
                        for kx in 0..3usize {
                            let iy = oy as isize + ky as isize - 1;
                            let ix = ox as isize + kx as isize - 1;
                            if iy < 0 || iy >= h as isize || ix < 0 || ix >= w as isize {
                                continue;
                            }
                            acc += x[ic * h * w + iy as usize * w + ix as usize]
                                * wt[(oc * ci + ic) * 9 + ky * 3 + kx];
                        }
                    }
                }
                out[oc * h * w + oy * w + ox] = acc;
            }
        }
    }
    out
}

fn plain_forward(w: &Weights, mel: &[f32], h: usize, ww: usize) -> Vec<f32> {
    let get = |n: &str| w.iter().find(|e| e.0 == n).map(|e| &e.2[..]).unwrap();
    let (mut x, mut ch, mut h, mut ww) = (mel.to_vec(), 1, h, ww);
    for blk in 0..4 {
        for c in 1..=2 {
            let b = get(&format!("b{blk}c{c}b"));
            x = plain_conv(&x, ch, h, ww, get(&format!("b{blk}c{c}w")), b);
            ch = b.len();
            x.iter_mut().for_each(|v| *v = relu(*v));
        }
        let (oh, ow) = (h / 2, ww / 2);
        let mut out = vec![0.0f32; ch * oh * ow];
        for c in 0..ch {
            for y in 0..oh {
                for i in 0..ow {
                    let at = |dy: usize, dx: usize| x[c * h * ww + (2 * y + dy) * ww + 2 * i + dx];
                    out[c * oh * ow + y * ow + i] = at(0, 0).max(at(0, 1)).max(at(1, 0)).max(at(1, 1));
                }
            }
        }
        x = out;
        h = oh;
        ww = ow;
    }
    let hw = h * ww;
    let feat: Vec<f32> =
        (0..ch).map(|c| x[c * hw..(c + 1) * hw].iter().fold(0.0, |a, v| a + v) / hw as f32).collect();
    let dense = |x: &[f32], wt: &[f32], b: &[f32]| -> Vec<f32> {
        (0..b.len())
            .map(|o| b[o] + x.iter().enumerate().fold(0.0, |a, (i, v)| a + v * wt[o * x.len() + i]))
            .collect()
    };
    let mut y = dense(&feat, get("fc1w"), get("fc1b"));
    y.iter_mut().for_each(|v| *v = relu(*v));
    dense(&y, get("fc2w"), get("fc2b")).iter().map(|v| squash(*v)).collect()
}

#[test]
fn the_network_runs() {
    let w = weights(3, 16);
    let net = load(&w);
    let ops = Ops {
        zero: 0.0f32,
        bias: |w: u32| f32::from_bits(w),
        mac: |a: f32, x: f32, w: u32| a + x * f32::from_bits(w),
        act: relu,
        max: f32::max,
        plus: |a: f32, b: f32| a + b,
        mean: |s: f32, n: usize| s / n as f32,
        squash,
    };
    let mut seed = 11;
    for (h, ww) in [(16, 16), (19, 35)] {
        let mel: Vec<f32> = (0..h * ww).map(|_| noise(&mut seed) + 0.5).collect();
        assert!(net.fits(mel.len(), h, ww));
        let g = net.forward(&ops, &mel, h, ww).unwrap();
        assert_eq!(g.to_vec(), plain_forward(&w, &mel, h, ww));
    }
    // fewer outputs leave the last knobs at zero
    let few = load(&weights(4, 14));
    let g = few.forward(&ops, &vec![0.5; 256], 16, 16).unwrap();
    assert!(g[13] > 0.0 && g[14] == 0.0 && g[15] == 0.0);
}

#[test]
fn missing_and_misshapen_tensors() {
    let ops = Ops {
        zero: 0.0f32,
        bias: |w: u32| f32::from_bits(w),
        mac: |a: f32, x: f32, w: u32| a + x * f32::from_bits(w),
        act: relu,
        max: f32::max,
        plus: |a: f32, b: f32| a + b,
        mean: |s: f32, n: usize| s / n as f32,
        squash,
    };
    let mut w = weights(3, 16);
    w.retain(|e| e.0 != "b2c1b");
    let net = load(&w);
    assert!(net.fits(256, 16, 16));
    assert_eq!(net.forward(&ops, &vec![0.5; 256], 16, 16).unwrap_err(), "b2c1b");
    assert!(!net.fits(255, 16, 16));
    assert!(!load(&weights(3, 17)).fits(256, 16, 16));
    let mut odd = weights(3, 16);
    odd[2].1 = vec![3, 7, 3, 3];
    odd[2].2 = vec![0.0; 189];
    assert!(!load(&odd).fits(256, 16, 16));
}

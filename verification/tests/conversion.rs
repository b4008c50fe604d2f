use libheifer::color::{ColorConversionOptions, Nclx};
use libheifer::conversion::{endpoints, next, normalized, plan, state_eq, undefined, Op, State};

fn options() -> ColorConversionOptions {
    ColorConversionOptions::default()
}

fn bt601() -> Nclx {
    normalized(undefined())
}

fn state(cs: i32, ch: i32, depth: u8, alpha: u8) -> State {
    State { cs, ch, depth, alpha, nclx: bt601() }
}

#[test]
fn normalized_fills_in_defaults() {
    let n = bt601();
    assert_eq!((n.primaries, n.transfer, n.matrix, n.full_range), (1, 13, 6, true));
    let kept = normalized(Nclx { primaries: 9, transfer: 16, matrix: 9, full_range: false });
    assert_eq!((kept.primaries, kept.transfer, kept.matrix, kept.full_range), (9, 16, 9, false));
}

#[test]
fn steps_from_planar_rgb() {
    let s = state(1, 3, 8, 0);
    let t = state(1, 10, 8, 0);
    let ops: Vec<(i32, i32, u8, u8, Op, u32)> =
        next(s, t, options()).into_iter().map(|(n, op, c)| (n.cs, n.ch, n.depth, n.alpha, op, c)).collect();
    assert_eq!(
        ops,
        vec![
            (1, 11, 8, 8, Op::Pack, 11),
            (1, 10, 8, 0, Op::Pack, 11),
            (0, 3, 8, 0, Op::RgbYuv, 11),
        ]
    );
}

#[test]
fn steps_from_monochrome() {
    let s = state(2, 0, 8, 0);
    let t = state(1, 3, 10, 0);
    let ops: Vec<(i32, i32, u8, Op, u32)> =
        next(s, t, options()).into_iter().map(|(n, op, c)| (n.cs, n.ch, n.depth, op, c)).collect();
    assert_eq!(
        ops,
        vec![
            (0, 1, 8, Op::MonoYuv, 6),
            (1, 10, 8, Op::MonoPacked, 11),
            (1, 11, 8, Op::MonoPacked, 11),
            (2, 0, 10, Op::Depth, 11),
        ]
    );
}

#[test]
fn the_same_format_needs_no_step() {
    let s = state(0, 1, 8, 0);
    assert!(plan(s, s, options()).ok().unwrap().is_empty());
}

#[test]
fn yuv420_to_interleaved_rgb_goes_through_planar_formats() {
    let s = state(0, 1, 8, 0);
    let t = State { nclx: undefined(), ..state(1, 10, 8, 0) };
    let path = plan(s, t, options()).ok().unwrap();
    let ops: Vec<Op> = path.iter().map(|(_, op)| *op).collect();
    assert_eq!(ops, vec![Op::Upsample, Op::YuvRgb, Op::Pack]);
    assert!(state_eq(&path.last().unwrap().0, &t));
    assert_eq!((path[0].0.cs, path[0].0.ch), (0, 3));
    assert_eq!((path[1].0.cs, path[1].0.ch), (1, 3));
}

#[test]
fn nearest_upsampling_converts_directly() {
    let mut o = options();
    o.only_use_preferred_chroma_algorithm = 0;
    let s = state(0, 1, 8, 0);
    let t = State { nclx: undefined(), ..state(1, 10, 8, 0) };
    let path = plan(s, t, o).ok().unwrap();
    let ops: Vec<Op> = path.iter().map(|(_, op)| *op).collect();
    assert_eq!(ops, vec![Op::YuvPacked]);
}

#[test]
fn unreachable_formats_are_unsupported() {
    let s = state(0, 1, 8, 0);
    let t = state(7, 1, 8, 0);
    let e = plan(s, t, options()).err().unwrap();
    assert_eq!((e.code, e.subcode), (4, 3003));
    assert_eq!(e.message, "Unsupported feature: Unsupported color conversion");
}

#[test]
fn endpoints_follow_the_request() {
    let (input, target) = endpoints(0, 1, 8, None, None, 1, 11, undefined(), 0);
    assert_eq!((input.cs, input.ch, input.depth, input.alpha), (0, 1, 8, 0));
    assert_eq!((input.nclx.primaries, input.nclx.transfer, input.nclx.matrix), (1, 13, 6));
    assert_eq!((target.cs, target.ch, target.depth, target.alpha), (1, 11, 8, 8));
    assert_eq!((target.nclx.primaries, target.nclx.transfer, target.nclx.matrix), (1, 13, 6));
    let (input, target) = endpoints(0, 3, 8, Some(8), None, 1, 12, undefined(), 0);
    assert_eq!(input.alpha, 8);
    assert_eq!((target.depth, target.alpha), (10, 0));
    let (_, target) = endpoints(1, 3, 10, Some(10), None, 1, 3, undefined(), 8);
    assert_eq!((target.depth, target.alpha), (8, 8));
}

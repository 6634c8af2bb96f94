use raytracer::bands::Bands;
use raytracer::path::{color_for, PathEnd};
use raytracer::ppm::{channel, encode};
use raytracer::scene::{check_hit, place};

// A small world in `f64`: two spheres seen through a pinhole at the origin.

#[derive(Clone, Copy, Debug, PartialEq)]
struct Ray {
    origin: [f64; 3],
    direction: [f64; 3],
}

struct Sphere {
    center: [f64; 3],
    radius: f64,
}

fn dot(a: [f64; 3], b: [f64; 3]) -> f64 {
    a[0] * b[0] + a[1] * b[1] + a[2] * b[2]
}

fn root(sphere: &Sphere, ray: &Ray) -> Option<f64> {
    let oc = [
        ray.origin[0] - sphere.center[0],
        ray.origin[1] - sphere.center[1],
        ray.origin[2] - sphere.center[2],
    ];
    let a = dot(ray.direction, ray.direction);
    let b = 2.0 * dot(oc, ray.direction);
    let c = dot(oc, oc) - sphere.radius * sphere.radius;
    let discriminant = b * b - 4.0 * a * c;
    if discriminant < 0.0 {
        None
    } else {
        Some((-b - discriminant.sqrt()) / (2.0 * a))
    }
}

fn ordered(t: f64) -> Option<i64> {
    place(t.to_bits())
}

fn sky(ray: &Ray) -> [f64; 3] {
    let length = dot(ray.direction, ray.direction).sqrt();
    let t = 0.5 * (ray.direction[1] / length + 1.0);
    [1.0 - t + 0.5 * t, 1.0 - t + 0.7 * t, 1.0 - t + t]
}

fn pixel_ray(x: usize, y: usize, width: usize, height: usize) -> Ray {
    let u = (x as f64 + 0.5) / width as f64;
    let v = (y as f64 + 0.5) / height as f64;
    Ray { origin: [0.0, 0.0, 0.0], direction: [-2.0 + 4.0 * u, -1.0 + 2.0 * v, -1.0] }
}

fn world() -> Vec<Sphere> {
    vec![
        Sphere { center: [0.0, 0.0, -1.0], radius: 0.5 },
        Sphere { center: [0.0, -100.5, -1.0], radius: 100.0 },
    ]
}

fn nearest(spheres: &[Sphere], ray: &Ray) -> Option<usize> {
    let roots: Vec<Option<i64>> =
        spheres.iter().map(|s| root(s, ray).and_then(ordered)).collect();
    check_hit(&roots, ordered(0.0001).unwrap(), ordered(f64::MAX).unwrap()).map(|hit| hit.object)
}

fn to_bytes(color: [f64; 3]) -> (u8, u8, u8) {
    let level = |value: f64| channel((255.0 * value.sqrt()).round() as i64);
    (level(color[0]), level(color[1]), level(color[2]))
}

#[test]
fn order_of_floats_is_kept_by_their_places() {
    let samples = [
        f64::NEG_INFINITY,
        -1.0e300,
        -2.5,
        -1.0,
        -1.0e-300,
        0.0,
        1.0e-300,
        0.0001,
        1.0,
        2.5,
        f64::MAX,
        f64::INFINITY,
    ];
    for pair in samples.windows(2) {
        assert!(ordered(pair[0]).unwrap() < ordered(pair[1]).unwrap());
    }
    assert_eq!(ordered(-0.0), ordered(0.0));
    assert_eq!(ordered(f64::NAN), None);
    assert_eq!(ordered(-f64::NAN), None);
    assert_eq!(ordered(1.0), Some(0x3FF0_0000_0000_0000));
    assert_eq!(ordered(-1.0), Some(-0x3FF0_0000_0000_0000));
}

#[test]
fn the_small_sphere_hides_the_ground_behind_it() {
    let spheres = world();
    // Straight ahead: the small sphere at t = 0.5, the ground far behind.
    let ahead = Ray { origin: [0.0, 0.0, 0.0], direction: [0.0, 0.0, -1.0] };
    assert_eq!(root(&spheres[0], &ahead), Some(0.5));
    assert_eq!(nearest(&spheres, &ahead), Some(0));
    // Downwards: only the ground.
    let down = Ray { origin: [0.0, 0.0, 0.0], direction: [0.0, -1.0, 0.0] };
    assert_eq!(nearest(&spheres, &down), Some(1));
    // Upwards: nothing.
    let up = Ray { origin: [0.0, 0.0, 0.0], direction: [0.0, 1.0, 0.0] };
    assert_eq!(nearest(&spheres, &up), None);
    // Same answer with the spheres in the other order.
    let mut swapped = world();
    swapped.reverse();
    assert_eq!(nearest(&swapped, &ahead), Some(1));
    assert_eq!(nearest(&swapped, &down), Some(0));
    assert_eq!(nearest(&swapped, &up), None);
}

#[test]
fn a_hit_behind_the_origin_or_too_close_does_not_count() {
    let sphere = [Sphere { center: [0.0, 0.0, 1.0], radius: 0.5 }];
    let away = Ray { origin: [0.0, 0.0, 0.0], direction: [0.0, 0.0, -1.0] };
    assert_eq!(root(&sphere[0], &away), Some(-1.5));
    assert_eq!(nearest(&sphere, &away), None);
}

#[test]
fn a_ray_without_direction_hits_nothing() {
    let spheres = world();
    let still = Ray { origin: [0.0, 0.0, 0.0], direction: [0.0, 0.0, 0.0] };
    assert!(root(&spheres[0], &still).unwrap().is_nan());
    assert_eq!(nearest(&spheres, &still), None);
    let scatter = |_hit: &usize, _ray: &Ray| -> Option<(Ray, [f64; 3])> { None };
    let path = color_for(still, 0, &|ray: &Ray| nearest(&spheres, ray), &scatter);
    assert_eq!(path.end, PathEnd::Sky(still));
}

#[test]
fn pixels_that_miss_both_spheres_show_the_sky() {
    let (width, height) = (40usize, 20usize);
    let spheres = world();
    let hit_of = |ray: &Ray| nearest(&spheres, ray);
    // Every surface absorbs, so that no random number is needed.
    let scatter = |_hit: &usize, _ray: &Ray| -> Option<(Ray, [f64; 3])> { None };
    let shade = |x: usize, y: usize| {
        let ray = pixel_ray(x, y, width, height);
        let path = color_for(ray, 0, &hit_of, &scatter);
        assert!(path.attenuations.is_empty());
        match path.end {
            PathEnd::Sky(escaped) => {
                assert_eq!(escaped, ray);
                to_bytes(sky(&escaped))
            }
            PathEnd::Absorbed => (0, 0, 0),
            PathEnd::Exhausted => panic!("no path is fifty bounces long here"),
        }
    };

    let plan = Bands::new(width, height, 3).unwrap();
    let mut buffer = vec![0u8; plan.buffer_len()];
    for (i, band) in buffer.chunks_mut(plan.chunk_len()).enumerate() {
        assert_eq!(band.len(), plan.band_len(i));
        assert!(plan.render_band(i, band, &shade));
    }

    let mut misses = 0;
    let mut hits = 0;
    for y in 0..height {
        for x in 0..width {
            let at = ((height - 1 - y) * width + x) * 3;
            let pixel = (buffer[at], buffer[at + 1], buffer[at + 2]);
            let ray = pixel_ray(x, y, width, height);
            if spheres.iter().all(|s| match root(s, &ray) {
                Some(t) => !(t >= 0.0001),
                None => true,
            }) {
                misses += 1;
                assert_eq!(pixel, to_bytes(sky(&ray)));
                assert!(pixel.2 == 255 && pixel.0 >= 180);
            } else {
                hits += 1;
                assert_eq!(pixel, (0, 0, 0));
            }
        }
    }
    assert!(misses > 0 && hits > 0);
    assert_eq!(misses + hits, width * height);

    // The top row of the image, which is all sky, opens the pixmap.
    let text = String::from_utf8(encode(width, height, &buffer).unwrap()).unwrap();
    let mut lines = text.lines();
    assert_eq!(lines.next(), Some("P3"));
    assert_eq!(lines.next(), Some("40 20"));
    assert_eq!(lines.next(), Some("255"));
    let (r, g, b) = to_bytes(sky(&pixel_ray(0, height - 1, width, height)));
    assert_eq!(lines.next(), Some(format!("{} {} {}", r, g, b).as_str()));
    assert_eq!(text.lines().count(), 3 + width * height);
}

#[test]
fn rendering_the_same_world_twice_gives_the_same_image() {
    let (width, height) = (16usize, 9usize);
    let spheres = world();
    let hit_of = |ray: &Ray| nearest(&spheres, ray);
    let scatter = |_hit: &usize, _ray: &Ray| -> Option<(Ray, [f64; 3])> { None };
    let shade = |x: usize, y: usize| {
        let path = color_for(pixel_ray(x, y, width, height), 0, &hit_of, &scatter);
        match path.end {
            PathEnd::Sky(escaped) => to_bytes(sky(&escaped)),
            _ => (0, 0, 0),
        }
    };
    let render = |threads: usize| {
        let plan = Bands::new(width, height, threads).unwrap();
        let mut buffer = vec![0u8; plan.buffer_len()];
        for (i, band) in buffer.chunks_mut(plan.chunk_len()).enumerate() {
            assert!(plan.render_band(i, band, &shade));
        }
        buffer
    };
    let once = render(4);
    assert_eq!(once, render(4));
    // Nor does the number of workers change the image.
    assert_eq!(once, render(1));
    assert_eq!(once, render(9));
    assert_eq!(once, render(100));
}

use saliency_map::accumulate::accumulate;
use saliency_map::kernel::gaussian_kernel;
use saliency_map::normalize::normalize;
use saliency_map::smooth::smooth;
use saliency_map::parse::{parse_fixation_line, parse_fixation_list};
use saliency_map::pipeline::render;
use saliency_map::colormap::coolwarm;
use saliency_map::raster::FixationPoint;

fn lines(ls: &[&str]) -> Vec<Vec<u8>> {
    ls.iter().map(|l| l.as_bytes().to_vec()).collect()
}

#[test]
fn parse_simple_pair() {
    let p = parse_fixation_line(&b"100,200".to_vec()).unwrap();
    assert_eq!((p.x, p.y), (100, 200));
}

#[test]
fn parse_trims_line_ends() {
    let p = parse_fixation_line(&b"  7,9 \r\n".to_vec()).unwrap();
    assert_eq!((p.x, p.y), (7, 9));
}

#[test]
fn parse_trims_ascii_whitespace_only() {
    // a no-break space is not trimmable padding: the field is malformed
    // and the record is skipped
    let mut line = b"1,2".to_vec();
    line.extend_from_slice("\u{a0}".as_bytes());
    assert!(parse_fixation_line(&line).is_none());
}

#[test]
fn parse_signs_and_range() {
    let p = parse_fixation_line(&b"-5,+7".to_vec()).unwrap();
    assert_eq!((p.x, p.y), (-5, 7));
    let p = parse_fixation_line(&b"-2147483648,2147483647".to_vec()).unwrap();
    assert_eq!((p.x, p.y), (i32::MIN, i32::MAX));
    assert!(parse_fixation_line(&b"2147483648,0".to_vec()).is_none());
    assert!(parse_fixation_line(&b"0,-2147483649".to_vec()).is_none());
}

#[test]
fn malformed_line_scenario() {
    // one field, non-numeric fields, three fields: all skipped, and
    // later lines are still processed
    let ls = lines(&["X,Y", "100", "a,b", "3,4", "5,6,7", "", "8, 9", "10,11"]);
    let pts = parse_fixation_list(&ls);
    let got: Vec<(i32, i32)> = pts.iter().map(|p| (p.x, p.y)).collect();
    assert_eq!(got, vec![(3, 4), (10, 11)]);
}

#[test]
fn header_line_is_discarded() {
    // the header is dropped even when it would parse as a record
    let ls = lines(&["1,2", "3,4"]);
    let pts = parse_fixation_list(&ls);
    let got: Vec<(i32, i32)> = pts.iter().map(|p| (p.x, p.y)).collect();
    assert_eq!(got, vec![(3, 4)]);
}

#[test]
fn end_to_end_accepted_count() {
    // header + (100,100), (100,100), (500,500) at 1920x1080: three accepted
    let ls = lines(&["X,Y", "100,100", "100,100", "500,500"]);
    let pts = parse_fixation_list(&ls);
    assert_eq!(pts.len(), 3);
    let (r, accepted) = accumulate(&pts, 1920, 1080);
    assert_eq!(accepted, 3);
    assert_eq!(r.cells[100 * 1920 + 100], 2);
    assert_eq!(r.cells[500 * 1920 + 500], 1);
}

#[test]
fn end_to_end_scenario_small() {
    // the full pipeline on a reduced frame: two stacked points and one
    // single point give two hot spots, the stacked one hotter
    let pts = vec![
        FixationPoint { x: 10, y: 10 },
        FixationPoint { x: 10, y: 10 },
        FixationPoint { x: 40, y: 30 },
    ];
    let pal = coolwarm();
    let (img, accepted) = render(&pts, 64, 48, 2000, &pal);
    assert_eq!(accepted, 3);
    assert_eq!(img.width, 64);
    assert_eq!(img.height, 48);
    // the two local maxima, ordered: the stacked point is the global
    // maximum, the single point about half as intense, the far-away
    // background cold
    let (dens, _) = accumulate(&pts, 64, 48);
    let kv = gaussian_kernel(2000);
    let norm = normalize(smooth(dens, &kv));
    let at = |x: usize, y: usize| norm.cells[y * 64 + x];
    assert_eq!(at(10, 10), 65536);
    assert!(at(40, 30) < at(10, 10));
    assert!(at(40, 30) > 25000 && at(40, 30) < 40000);
    assert_eq!(at(60, 5), 0);
    // and the image renders the hot spot as the palette's hottest stop
    let px = |x: usize, y: usize| {
        let i = 3 * (y * 64 + x);
        (img.bytes[i], img.bytes[i + 1], img.bytes[i + 2])
    };
    assert_eq!(px(10, 10), (38, 3, 179));
    assert_eq!(px(60, 5), (192, 76, 58));
}

#[test]
fn skip_scenario_contributes_no_density() {
    let ls = lines(&["X,Y", "9999,9999"]);
    let pts = parse_fixation_list(&ls);
    assert_eq!(pts.len(), 1);
    let (r, accepted) = accumulate(&pts, 1920, 1080);
    assert_eq!(accepted, 0);
    assert!(r.cells.iter().all(|&v| v == 0));
}

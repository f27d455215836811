use libtrace::movie::{FrameAction, MovieCfg};
use libtrace::ppm::{encode_ppm, Pixel};
use libtrace::render::{
    assemble, band, check_setup, plan_bands, progress_mark, row_order, write_band, SetupError,
};

#[test]
fn bands_of_five_workers() {
    assert_eq!(band(0, 200, 5), (0, 40));
    assert_eq!(band(4, 200, 5), (160, 200));
    assert_eq!(plan_bands(7, 3), vec![(0, 2), (2, 4), (4, 7)]);
    assert_eq!(plan_bands(2, 4), vec![(0, 0), (0, 1), (1, 1), (1, 2)]);
}

#[test]
fn rows_come_out_from_the_top() {
    assert_eq!(row_order(7, 3), vec![6, 5, 4, 3, 2, 1, 0]);
    assert_eq!(row_order(0, 2), Vec::<usize>::new());
    assert_eq!(row_order(3, 5), vec![2, 1, 0]);
}

#[test]
fn progress_marks() {
    assert_eq!(progress_mark(0, 200), Some(50));
    assert_eq!(progress_mark(2, 200), None);
    assert_eq!(progress_mark(4, 200), Some(49));
    assert_eq!(progress_mark(6, 200), None);
    assert_eq!(progress_mark(1, 3), None);
    assert_eq!(progress_mark(50, 100), Some(25));
}

#[test]
fn assemble_reverses_worker_outputs() {
    let parts = vec![b"0 0 0 \n".to_vec(), b"1 1 1 \n".to_vec()];
    let out = assemble(1, 2, &parts);
    assert_eq!(String::from_utf8(out).unwrap(), "P3\n1 2\n255\n1 1 1 \n0 0 0 \n");
}

#[test]
fn setup_needs_camera_then_sky() {
    assert_eq!(check_setup(false, false), Err(SetupError::NoCamera));
    assert_eq!(check_setup(false, true), Err(SetupError::NoCamera));
    assert_eq!(check_setup(true, false), Err(SetupError::NoSky));
    assert_eq!(check_setup(true, true), Ok(()));
}

#[test]
fn movie_frames() {
    let mut m = MovieCfg::new(String::from("spin"));
    assert_eq!(m.name(), "spin");
    assert_eq!(m.frame(), FrameAction::Render(0));
    assert_eq!(m.frame(), FrameAction::Copy(0, 1));
    m.refresh();
    assert!(m.modified());
    assert_eq!(m.frame(), FrameAction::Render(2));
    assert_eq!(m.count(), 3);
    assert!(!m.modified());
}

fn grey(v: u8) -> Pixel {
    Pixel { r: v, g: v, b: v }
}

#[test]
fn band_is_written_from_its_last_row() {
    let rows = vec![vec![grey(1)], vec![grey(2)], vec![grey(3)]];
    assert_eq!(String::from_utf8(write_band(&rows)).unwrap(), "3 3 3 \n2 2 2 \n1 1 1 \n");
    assert!(write_band(&vec![]).is_empty());
}

#[test]
fn assembled_bands_give_the_image_from_the_top() {
    // row i of the picture (0 at the bottom) is grey(i)
    let (wth, hgt, n) = (2usize, 7usize, 3usize);
    let grid: Vec<Vec<Pixel>> = (0..hgt).map(|i| vec![grey(i as u8); wth]).collect();
    let parts: Vec<Vec<u8>> = plan_bands(hgt, n)
        .into_iter()
        .map(|(a, b)| write_band(&grid[a..b].to_vec()))
        .collect();
    let top_down: Vec<Vec<Pixel>> = row_order(hgt, n).into_iter().map(|i| grid[i].clone()).collect();
    assert_eq!(assemble(wth, hgt, &parts), encode_ppm(wth, hgt, &top_down));
    let text = String::from_utf8(assemble(wth, hgt, &parts)).unwrap();
    assert!(text.starts_with("P3\n2 7\n255\n6 6 6 6 6 6 \n5 5 5 "));
    assert!(text.ends_with("0 0 0 0 0 0 \n"));
}

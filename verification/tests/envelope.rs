use multisync::envelope::{outline_of, SECOND, SECTIONS};

#[test]
fn the_outline_holds_the_extremes_of_each_section() {
    let mut samples = vec![0i16; SECOND];
    samples[0] = 32767;
    samples[9] = -32768;
    samples[10] = 256;
    samples[19] = -1;
    for i in 20..30 {
        samples[i] = 513 + i as i16;
    }
    let outline = outline_of(&samples);
    assert_eq!(outline.len(), 2 * SECTIONS);
    assert_eq!(outline[0], 127);
    assert_eq!(outline[SECTIONS], 128);
    assert_eq!(outline[1], 1);
    assert_eq!(outline[SECTIONS + 1], 255);
    assert_eq!(outline[2], 2);
    assert_eq!(outline[SECTIONS + 2], 2);
    assert_eq!(outline[3], 0);
    assert_eq!(outline[SECTIONS + 3], 0);
}

#[test]
fn the_last_section_ends_the_second() {
    let mut samples = vec![-256i16; SECOND];
    samples[SECOND - 1] = 1024;
    let outline = outline_of(&samples);
    assert_eq!(outline[SECTIONS - 1], 4);
    assert_eq!(outline[2 * SECTIONS - 1], 255);
    assert_eq!(outline[SECTIONS - 2], 255);
}

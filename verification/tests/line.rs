use mcts2048::line::{build_move_lut, transform_key, KEY_SPACE};

fn key(line: [u32; 4]) -> u32 {
    ((line[0] * 32 + line[1]) * 32 + line[2]) * 32 + line[3]
}

#[test]
fn empty_line_stays() {
    assert_eq!(transform_key(0), 0);
}

#[test]
fn packed_line_without_equal_neighbours_stays() {
    assert_eq!(transform_key(key([1, 2, 3, 4])), key([1, 2, 3, 4]));
    assert_eq!(transform_key(key([1, 2, 1, 0])), key([1, 2, 1, 0]));
    assert_eq!(transform_key(key([5, 0, 0, 0])), key([5, 0, 0, 0]));
}

#[test]
fn tiles_slide_to_the_front() {
    assert_eq!(transform_key(key([0, 0, 0, 1])), key([1, 0, 0, 0]));
    assert_eq!(transform_key(key([0, 3, 0, 1])), key([3, 1, 0, 0]));
    assert_eq!(transform_key(key([2, 0, 0, 1])), key([2, 1, 0, 0]));
}

#[test]
fn equal_neighbours_merge_once() {
    assert_eq!(transform_key(key([2, 2, 2, 2])), key([3, 3, 0, 0]));
    assert_eq!(transform_key(key([1, 1, 2, 0])), key([2, 2, 0, 0]));
    assert_eq!(transform_key(key([2, 2, 3, 0])), key([3, 3, 0, 0]));
    assert_eq!(transform_key(key([0, 2, 0, 2])), key([3, 0, 0, 0]));
    assert_eq!(transform_key(key([3, 1, 1, 1])), key([3, 2, 1, 0]));
    assert_eq!(transform_key(key([1, 1, 1, 0])), key([2, 1, 0, 0]));
    assert_eq!(transform_key(key([15, 15, 0, 0])), key([16, 0, 0, 0]));
}

#[test]
fn merged_tiles_of_the_highest_exponent_carry() {
    // 31 and 31 merge to 32, which does not fit a field of five bits.
    assert_eq!(transform_key(key([31, 31, 0, 0])), 32 * 32768);
    assert_eq!(transform_key(key([5, 31, 31, 0])), 5 * 32768 + 32 * 1024);
    assert_eq!(transform_key(key([5, 31, 31, 0])), key([6, 0, 0, 0]));
}

#[test]
fn table_holds_the_transform_of_every_key() {
    let table = build_move_lut();
    let mut k: u32 = 0;
    while (k as usize) < KEY_SPACE {
        assert_eq!(table.transform(k), transform_key(k));
        k += 1;
    }
}

#[test]
fn table_agrees_with_the_scan_from_the_far_end() {
    // The transform written as a scan over the fields from the highest
    // down, with a flag that forbids a second merge into the same tile.
    fn scan(i: u32) -> u32 {
        let mut line = [0u32; 4];
        for j in 0..4 {
            line[j] = (i >> (j * 5)) & 0x1f;
        }
        let mut merged = false;
        let mut new_x: usize = 3;
        let mut x: usize = 3;
        loop {
            if line[x] != 0 {
                if !merged && new_x < 3 && line[x] == line[new_x + 1] {
                    line[new_x + 1] += 1;
                    line[x] = 0;
                    merged = true;
                } else if new_x == x {
                    if x == 0 {
                        break;
                    }
                    new_x -= 1;
                } else {
                    line[new_x] = line[x];
                    line[x] = 0;
                    merged = false;
                    new_x -= 1;
                }
            }
            if x == 0 {
                break;
            }
            x -= 1;
        }
        let mut out = 0;
        for j in 0..4 {
            out += line[j] << (j * 5);
        }
        out
    }
    let table = build_move_lut();
    let mut k: u32 = 0;
    while (k as usize) < KEY_SPACE {
        assert_eq!(table.transform(k), scan(k));
        k += 4093;
    }
}
